use vstd::prelude::*;

verus! {

/// A color that a square of the board can have.
///
/// There are 16 colors, the 16 colors that most terminals can show. Each has
/// a place from 0 to 15, a one-letter code, and a name. The code is the first
/// letter of the color's name, except for black, which is `k`; the bright
/// colors have the capital letter.
#[derive(Clone, Copy, Debug, PartialEq, Eq, Hash, Structural)]
pub enum SquareColor {
    /// Black, written `k`.
    Black,
    /// Red, written `r`.
    Red,
    /// Green, written `g`.
    Green,
    /// Yellow, written `y`.
    Yellow,
    /// Blue, written `b`.
    Blue,
    /// Magenta, written `m`.
    Magenta,
    /// Cyan, written `c`.
    Cyan,
    /// White, written `w`.
    White,
    /// Bright black, written `K`.
    BrightBlack,
    /// Bright red, written `R`.
    BrightRed,
    /// Bright green, written `G`.
    BrightGreen,
    /// Bright yellow, written `Y`.
    BrightYellow,
    /// Bright blue, written `B`.
    BrightBlue,
    /// Bright magenta, written `M`.
    BrightMagenta,
    /// Bright cyan, written `C`.
    BrightCyan,
    /// Bright white, written `W`.
    BrightWhite,
}

/// Every color once, in the order of their places.
pub const ALL_SQUARE_COLORS: [SquareColor; 16] = [
    SquareColor::Black,
    SquareColor::Red,
    SquareColor::Green,
    SquareColor::Yellow,
    SquareColor::Blue,
    SquareColor::Magenta,
    SquareColor::Cyan,
    SquareColor::White,
    SquareColor::BrightBlack,
    SquareColor::BrightRed,
    SquareColor::BrightGreen,
    SquareColor::BrightYellow,
    SquareColor::BrightBlue,
    SquareColor::BrightMagenta,
    SquareColor::BrightCyan,
    SquareColor::BrightWhite,
];

/// The place of a color among the 16, as a mathematical integer.
pub open spec fn color_place(color: SquareColor) -> int {
    match color {
        SquareColor::Black => 0,
        SquareColor::Red => 1,
        SquareColor::Green => 2,
        SquareColor::Yellow => 3,
        SquareColor::Blue => 4,
        SquareColor::Magenta => 5,
        SquareColor::Cyan => 6,
        SquareColor::White => 7,
        SquareColor::BrightBlack => 8,
        SquareColor::BrightRed => 9,
        SquareColor::BrightGreen => 10,
        SquareColor::BrightYellow => 11,
        SquareColor::BrightBlue => 12,
        SquareColor::BrightMagenta => 13,
        SquareColor::BrightCyan => 14,
        SquareColor::BrightWhite => 15,
    }
}

/// The color at a place; places outside 0..16 give bright white.
pub open spec fn color_at_place(place: int) -> SquareColor {
    if place == 0 {
        SquareColor::Black
    } else if place == 1 {
        SquareColor::Red
    } else if place == 2 {
        SquareColor::Green
    } else if place == 3 {
        SquareColor::Yellow
    } else if place == 4 {
        SquareColor::Blue
    } else if place == 5 {
        SquareColor::Magenta
    } else if place == 6 {
        SquareColor::Cyan
    } else if place == 7 {
        SquareColor::White
    } else if place == 8 {
        SquareColor::BrightBlack
    } else if place == 9 {
        SquareColor::BrightRed
    } else if place == 10 {
        SquareColor::BrightGreen
    } else if place == 11 {
        SquareColor::BrightYellow
    } else if place == 12 {
        SquareColor::BrightBlue
    } else if place == 13 {
        SquareColor::BrightMagenta
    } else if place == 14 {
        SquareColor::BrightCyan
    } else {
        SquareColor::BrightWhite
    }
}

/// The one-letter code of a color.
pub open spec fn color_code(color: SquareColor) -> char {
    match color {
        SquareColor::Black => 'k',
        SquareColor::Red => 'r',
        SquareColor::Green => 'g',
        SquareColor::Yellow => 'y',
        SquareColor::Blue => 'b',
        SquareColor::Magenta => 'm',
        SquareColor::Cyan => 'c',
        SquareColor::White => 'w',
        SquareColor::BrightBlack => 'K',
        SquareColor::BrightRed => 'R',
        SquareColor::BrightGreen => 'G',
        SquareColor::BrightYellow => 'Y',
        SquareColor::BrightBlue => 'B',
        SquareColor::BrightMagenta => 'M',
        SquareColor::BrightCyan => 'C',
        SquareColor::BrightWhite => 'W',
    }
}

/// The color that a letter stands for, if it is the code of one.
pub open spec fn color_of_code(code: char) -> Option<SquareColor> {
    if code == 'k' {
        Some(SquareColor::Black)
    } else if code == 'r' {
        Some(SquareColor::Red)
    } else if code == 'g' {
        Some(SquareColor::Green)
    } else if code == 'y' {
        Some(SquareColor::Yellow)
    } else if code == 'b' {
        Some(SquareColor::Blue)
    } else if code == 'm' {
        Some(SquareColor::Magenta)
    } else if code == 'c' {
        Some(SquareColor::Cyan)
    } else if code == 'w' {
        Some(SquareColor::White)
    } else if code == 'K' {
        Some(SquareColor::BrightBlack)
    } else if code == 'R' {
        Some(SquareColor::BrightRed)
    } else if code == 'G' {
        Some(SquareColor::BrightGreen)
    } else if code == 'Y' {
        Some(SquareColor::BrightYellow)
    } else if code == 'B' {
        Some(SquareColor::BrightBlue)
    } else if code == 'M' {
        Some(SquareColor::BrightMagenta)
    } else if code == 'C' {
        Some(SquareColor::BrightCyan)
    } else if code == 'W' {
        Some(SquareColor::BrightWhite)
    } else {
        None
    }
}

/// The name of a color.
pub open spec fn color_name(color: SquareColor) -> Seq<char> {
    match color {
        SquareColor::Black => "Black"@,
        SquareColor::Red => "Red"@,
        SquareColor::Green => "Green"@,
        SquareColor::Yellow => "Yellow"@,
        SquareColor::Blue => "Blue"@,
        SquareColor::Magenta => "Magenta"@,
        SquareColor::Cyan => "Cyan"@,
        SquareColor::White => "White"@,
        SquareColor::BrightBlack => "BrightBlack"@,
        SquareColor::BrightRed => "BrightRed"@,
        SquareColor::BrightGreen => "BrightGreen"@,
        SquareColor::BrightYellow => "BrightYellow"@,
        SquareColor::BrightBlue => "BrightBlue"@,
        SquareColor::BrightMagenta => "BrightMagenta"@,
        SquareColor::BrightCyan => "BrightCyan"@,
        SquareColor::BrightWhite => "BrightWhite"@,
    }
}

/// The colored block character that stands for a color in share texts.
/// A bright color has the block of its plain color, and cyan that of blue.
pub open spec fn color_block(color: SquareColor) -> char {
    match color {
        SquareColor::Black | SquareColor::BrightBlack => '\u{2B1B}',
        SquareColor::Red | SquareColor::BrightRed => '\u{1F7E5}',
        SquareColor::Green | SquareColor::BrightGreen => '\u{1F7E9}',
        SquareColor::Yellow | SquareColor::BrightYellow => '\u{1F7E8}',
        SquareColor::Blue | SquareColor::BrightBlue => '\u{1F7E6}',
        SquareColor::Magenta | SquareColor::BrightMagenta => '\u{1F7EA}',
        SquareColor::Cyan | SquareColor::BrightCyan => '\u{1F7E6}',
        SquareColor::White | SquareColor::BrightWhite => '\u{2B1C}',
    }
}

/// The color in which a glyph is drawn on a square of the given color:
/// bright white on the two blacks, black on every other color.
pub open spec fn color_foreground(color: SquareColor) -> SquareColor {
    match color {
        SquareColor::Black | SquareColor::BrightBlack => SquareColor::BrightWhite,
        _ => SquareColor::Black,
    }
}

/// The error of reading a letter that is the code of no color.
#[derive(Clone, Copy, Debug, PartialEq, Eq, Structural)]
pub struct UnknownColor {
    /// The letter that was read.
    pub code: char,
}

impl SquareColor {
    /// The place of the color among the 16.
    pub fn place(&self) -> (place: usize)
        ensures
            place == color_place(*self),
            place < 16,
    {
        match self {
            SquareColor::Black => 0,
            SquareColor::Red => 1,
            SquareColor::Green => 2,
            SquareColor::Yellow => 3,
            SquareColor::Blue => 4,
            SquareColor::Magenta => 5,
            SquareColor::Cyan => 6,
            SquareColor::White => 7,
            SquareColor::BrightBlack => 8,
            SquareColor::BrightRed => 9,
            SquareColor::BrightGreen => 10,
            SquareColor::BrightYellow => 11,
            SquareColor::BrightBlue => 12,
            SquareColor::BrightMagenta => 13,
            SquareColor::BrightCyan => 14,
            SquareColor::BrightWhite => 15,
        }
    }

    /// The color at a place.
    pub fn at_place(place: usize) -> (color: SquareColor)
        requires
            place < 16,
        ensures
            color == color_at_place(place as int),
            color_place(color) == place,
    {
        if place == 0 {
            SquareColor::Black
        } else if place == 1 {
            SquareColor::Red
        } else if place == 2 {
            SquareColor::Green
        } else if place == 3 {
            SquareColor::Yellow
        } else if place == 4 {
            SquareColor::Blue
        } else if place == 5 {
            SquareColor::Magenta
        } else if place == 6 {
            SquareColor::Cyan
        } else if place == 7 {
            SquareColor::White
        } else if place == 8 {
            SquareColor::BrightBlack
        } else if place == 9 {
            SquareColor::BrightRed
        } else if place == 10 {
            SquareColor::BrightGreen
        } else if place == 11 {
            SquareColor::BrightYellow
        } else if place == 12 {
            SquareColor::BrightBlue
        } else if place == 13 {
            SquareColor::BrightMagenta
        } else if place == 14 {
            SquareColor::BrightCyan
        } else {
            SquareColor::BrightWhite
        }
    }

    /// Reads the one-letter code of a color.
    pub fn try_from(value: char) -> (result: Result<SquareColor, UnknownColor>)
        ensures
            match color_of_code(value) {
                Some(color) => result == Ok::<SquareColor, UnknownColor>(color),
                None => result == Err::<SquareColor, UnknownColor>(UnknownColor { code: value }),
            },
    {
        match value {
            'k' => Ok(SquareColor::Black),
            'r' => Ok(SquareColor::Red),
            'g' => Ok(SquareColor::Green),
            'y' => Ok(SquareColor::Yellow),
            'b' => Ok(SquareColor::Blue),
            'm' => Ok(SquareColor::Magenta),
            'c' => Ok(SquareColor::Cyan),
            'w' => Ok(SquareColor::White),
            'K' => Ok(SquareColor::BrightBlack),
            'R' => Ok(SquareColor::BrightRed),
            'G' => Ok(SquareColor::BrightGreen),
            'Y' => Ok(SquareColor::BrightYellow),
            'B' => Ok(SquareColor::BrightBlue),
            'M' => Ok(SquareColor::BrightMagenta),
            'C' => Ok(SquareColor::BrightCyan),
            'W' => Ok(SquareColor::BrightWhite),
            _ => Err(UnknownColor { code: value }),
        }
    }

    /// The name of the color.
    pub fn name(&self) -> (name: &'static str)
        ensures
            name@ == color_name(*self),
    {
        match self {
            SquareColor::Black => "Black",
            SquareColor::Red => "Red",
            SquareColor::Green => "Green",
            SquareColor::Yellow => "Yellow",
            SquareColor::Blue => "Blue",
            SquareColor::Magenta => "Magenta",
            SquareColor::Cyan => "Cyan",
            SquareColor::White => "White",
            SquareColor::BrightBlack => "BrightBlack",
            SquareColor::BrightRed => "BrightRed",
            SquareColor::BrightGreen => "BrightGreen",
            SquareColor::BrightYellow => "BrightYellow",
            SquareColor::BrightBlue => "BrightBlue",
            SquareColor::BrightMagenta => "BrightMagenta",
            SquareColor::BrightCyan => "BrightCyan",
            SquareColor::BrightWhite => "BrightWhite",
        }
    }

    /// The one-letter code of the color.
    pub fn to_char(&self) -> (code: char)
        ensures
            code == color_code(*self),
    {
        match self {
            SquareColor::Black => 'k',
            SquareColor::Red => 'r',
            SquareColor::Green => 'g',
            SquareColor::Yellow => 'y',
            SquareColor::Blue => 'b',
            SquareColor::Magenta => 'm',
            SquareColor::Cyan => 'c',
            SquareColor::White => 'w',
            SquareColor::BrightBlack => 'K',
            SquareColor::BrightRed => 'R',
            SquareColor::BrightGreen => 'G',
            SquareColor::BrightYellow => 'Y',
            SquareColor::BrightBlue => 'B',
            SquareColor::BrightMagenta => 'M',
            SquareColor::BrightCyan => 'C',
            SquareColor::BrightWhite => 'W',
        }
    }

    /// The colored block character that stands for the color in share texts.
    pub fn to_unicode_block(&self) -> (block: char)
        ensures
            block == color_block(*self),
    {
        match self {
            SquareColor::Black => '\u{2B1B}',
            SquareColor::Red => '\u{1F7E5}',
            SquareColor::Green => '\u{1F7E9}',
            SquareColor::Yellow => '\u{1F7E8}',
            SquareColor::Blue => '\u{1F7E6}',
            SquareColor::Magenta => '\u{1F7EA}',
            SquareColor::Cyan => '\u{1F7E6}',
            SquareColor::White => '\u{2B1C}',
            SquareColor::BrightBlack => '\u{2B1B}',
            SquareColor::BrightRed => '\u{1F7E5}',
            SquareColor::BrightGreen => '\u{1F7E9}',
            SquareColor::BrightYellow => '\u{1F7E8}',
            SquareColor::BrightBlue => '\u{1F7E6}',
            SquareColor::BrightMagenta => '\u{1F7EA}',
            SquareColor::BrightCyan => '\u{1F7E6}',
            SquareColor::BrightWhite => '\u{2B1C}',
        }
    }

    /// The color in which a glyph is drawn on a square of this color.
    pub fn fg_color(&self) -> (foreground: SquareColor)
        ensures
            foreground == color_foreground(*self),
    {
        match self {
            SquareColor::Black => SquareColor::BrightWhite,
            SquareColor::BrightBlack => SquareColor::BrightWhite,
            _ => SquareColor::Black,
        }
    }
}

/// A color's place determines the color: the color at the place of a color
/// is that color, and the 16 places are 0 to 15.
pub proof fn lemma_place_roundtrip(color: SquareColor)
    ensures
        0 <= color_place(color) < 16,
        color_at_place(color_place(color)) == color,
{
}

/// Reading the code of a color gives the color back.
pub proof fn lemma_code_roundtrip(color: SquareColor)
    ensures
        color_of_code(color_code(color)) == Some(color),
{
}

/// A letter that stands for a color is that color's code.
pub proof fn lemma_code_of_color(code: char)
    requires
        color_of_code(code) is Some,
    ensures
        color_code(color_of_code(code).unwrap()) == code,
{
}

} // verus!
