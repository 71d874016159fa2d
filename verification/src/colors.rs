//! The palette: a finite, totally ordered enumeration of the six symbols a
//! sequence can hold, with index/symbol conversion and enumeration in rank
//! order.

use vstd::prelude::*;

verus! {

/// One symbol of the palette.  The declaration order is the rank order used
/// for iteration; `Black`, the last color, doubles as the "no information
/// yet" sentinel.
#[derive(Debug, Clone, Copy, PartialEq, Eq, Structural)]
pub enum Colors {
    Red,
    Green,
    Blue,
    Yellow,
    White,
    Black,
}

/// The number of colors in the palette.
pub open spec fn palette_size() -> int {
    6
}

/// The stable rank of a color: its position in the palette's order.
pub open spec fn color_index(c: Colors) -> int {
    match c {
        Colors::Red => 0,
        Colors::Green => 1,
        Colors::Blue => 2,
        Colors::Yellow => 3,
        Colors::White => 4,
        Colors::Black => 5,
    }
}

/// The color of a given rank, clamped to the last color for a rank outside
/// the palette.
pub open spec fn color_of_index(i: int) -> Colors {
    if i == 0 {
        Colors::Red
    } else if i == 1 {
        Colors::Green
    } else if i == 2 {
        Colors::Blue
    } else if i == 3 {
        Colors::Yellow
    } else if i == 4 {
        Colors::White
    } else {
        Colors::Black
    }
}

/// All palette colors, in rank order.
pub open spec fn palette() -> Seq<Colors> {
    Seq::new(palette_size() as nat, |i: int| color_of_index(i))
}

impl Colors {
    /// The shell escape that paints the terminal in this color.
    pub fn to_shell_escape(&self) -> (r: &'static str)
        ensures
            r@ == spec_shell_escape(*self),
    {
        match *self {
            Colors::Red => "\u{1b}[31m",
            Colors::Green => "\u{1b}[32m",
            Colors::Blue => "\u{1b}[34m",
            Colors::Yellow => "\u{1b}[33m",
            Colors::White => "\u{1b}[37m",
            Colors::Black => "\u{1b}[30m",
        }
    }

    /// A colored square: the textual rendering of this color.
    pub fn to_display_string(&self) -> (r: String)
        ensures
            r@ == spec_color_display(*self),
    {
        match *self {
            Colors::Red => "\u{1b}[31m\u{2589}\u{1b}[0m",
            Colors::Green => "\u{1b}[32m\u{2589}\u{1b}[0m",
            Colors::Blue => "\u{1b}[34m\u{2589}\u{1b}[0m",
            Colors::Yellow => "\u{1b}[33m\u{2589}\u{1b}[0m",
            Colors::White => "\u{1b}[37m\u{2589}\u{1b}[0m",
            Colors::Black => "\u{1b}[30m\u{2589}\u{1b}[0m",
        }.to_owned()
    }

    /// All palette colors, in rank order.
    pub fn iter() -> (r: Vec<Colors>)
        ensures
            r@ == palette(),
    {
        let r = vec![
            Colors::Red,
            Colors::Green,
            Colors::Blue,
            Colors::Yellow,
            Colors::White,
            Colors::Black,
        ];
        proof {
            assert(r@ =~= palette());
        }
        r
    }

    /// The last color of the palette, used as the sentinel symbol.
    pub fn last() -> (r: Colors)
        ensures
            r == color_of_index(palette_size() - 1),
    {
        Colors::Black
    }

    /// How many colors the palette holds.
    pub fn len() -> (r: u8)
        ensures
            r == palette_size(),
    {
        6
    }

    /// The color of the given rank, clamped to the last color when the rank
    /// lies outside the palette (an explicit defensive clamp, never an
    /// error).
    pub fn from_index(num: u8) -> (r: Colors)
        ensures
            r == color_of_index(num as int),
    {
        match num {
            0 => Colors::Red,
            1 => Colors::Green,
            2 => Colors::Blue,
            3 => Colors::Yellow,
            4 => Colors::White,
            _ => Colors::Black,
        }
    }
}

/// The escape sequence of each color, as a sequence of characters.
pub open spec fn spec_shell_escape(c: Colors) -> Seq<char> {
    match c {
        Colors::Red => "\u{1b}[31m"@,
        Colors::Green => "\u{1b}[32m"@,
        Colors::Blue => "\u{1b}[34m"@,
        Colors::Yellow => "\u{1b}[33m"@,
        Colors::White => "\u{1b}[37m"@,
        Colors::Black => "\u{1b}[30m"@,
    }
}

/// The textual rendering of each color: its escape, a square, and the reset
/// escape.
pub open spec fn spec_color_display(c: Colors) -> Seq<char> {
    match c {
        Colors::Red => "\u{1b}[31m\u{2589}\u{1b}[0m"@,
        Colors::Green => "\u{1b}[32m\u{2589}\u{1b}[0m"@,
        Colors::Blue => "\u{1b}[34m\u{2589}\u{1b}[0m"@,
        Colors::Yellow => "\u{1b}[33m\u{2589}\u{1b}[0m"@,
        Colors::White => "\u{1b}[37m\u{2589}\u{1b}[0m"@,
        Colors::Black => "\u{1b}[30m\u{2589}\u{1b}[0m"@,
    }
}

impl From<u8> for Colors {
    /// The color of the given rank, clamped to the last color out of range.
    fn from(num: u8) -> (r: Colors) {
        Colors::from_index(num)
    }
}

impl vstd::std_specs::convert::FromSpecImpl<u8> for Colors {
    open spec fn obeys_from_spec() -> bool {
        true
    }

    open spec fn from_spec(num: u8) -> Colors {
        color_of_index(num as int)
    }
}

} // verus!
