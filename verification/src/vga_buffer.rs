//! Text-console colors.  The screen writer itself drives video memory and
//! lives with the machine-facing code; the color model and its parsing
//! are here.
use vstd::prelude::*;

verus! {

/// The sixteen text-mode colors.
#[derive(Clone, Copy, PartialEq, Eq, Structural, Debug)]
pub enum Color {
    Black,
    Blue,
    Green,
    Cyan,
    Red,
    Magenta,
    Brown,
    LightGray,
    DarkGray,
    LightBlue,
    LightGreen,
    LightCyan,
    LightRed,
    Pink,
    Yellow,
    White,
}

/// The hardware code of each color.
pub open spec fn color_value_spec(c: Color) -> u8 {
    match c {
        Color::Black => 0,
        Color::Blue => 1,
        Color::Green => 2,
        Color::Cyan => 3,
        Color::Red => 4,
        Color::Magenta => 5,
        Color::Brown => 6,
        Color::LightGray => 7,
        Color::DarkGray => 8,
        Color::LightBlue => 9,
        Color::LightGreen => 10,
        Color::LightCyan => 11,
        Color::LightRed => 12,
        Color::Pink => 13,
        Color::Yellow => 14,
        Color::White => 15,
    }
}

/// The color a user may name on the console, if the name is known.
pub open spec fn color_of_name(s: Seq<char>) -> Option<Color> {
    if s == "red"@ {
        Some(Color::Red)
    } else if s == "blue"@ {
        Some(Color::Blue)
    } else if s == "green"@ {
        Some(Color::Green)
    } else if s == "cyan"@ {
        Some(Color::Cyan)
    } else if s == "brown"@ {
        Some(Color::Brown)
    } else if s == "magenta"@ {
        Some(Color::Magenta)
    } else if s == "pink"@ {
        Some(Color::Pink)
    } else if s == "yellow"@ {
        Some(Color::Yellow)
    } else if s == "white"@ {
        Some(Color::White)
    } else if s == "black"@ {
        Some(Color::Black)
    } else {
        None
    }
}

/// Character-wise string comparison.
pub fn str_eq(a: &str, b: &str) -> (r: bool)
    ensures
        r == (a@ == b@),
{
    let la = a.unicode_len();
    let lb = b.unicode_len();
    if la != lb {
        proof {
            assert(a@ != b@) by {
                if a@ == b@ {
                    assert(a@.len() == b@.len());
                }
            }
        }
        return false;
    }
    let mut i: usize = 0;
    while i < la
        invariant
            la == a@.len(),
            la == b@.len(),
            i <= la,
            forall|k: int| 0 <= k < i ==> a@[k] == b@[k],
        decreases la - i,
    {
        if a.get_char(i) != b.get_char(i) {
            proof {
                assert(a@ != b@) by {
                    if a@ == b@ {
                        assert(a@[i as int] == b@[i as int]);
                    }
                }
            }
            return false;
        }
        i = i + 1;
    }
    proof {
        assert(a@ =~= b@);
    }
    true
}

impl Color {
    /// The hardware code of the color.
    pub fn value(self) -> (r: u8)
        ensures
            r == color_value_spec(self),
    {
        match self {
            Color::Black => 0,
            Color::Blue => 1,
            Color::Green => 2,
            Color::Cyan => 3,
            Color::Red => 4,
            Color::Magenta => 5,
            Color::Brown => 6,
            Color::LightGray => 7,
            Color::DarkGray => 8,
            Color::LightBlue => 9,
            Color::LightGreen => 10,
            Color::LightCyan => 11,
            Color::LightRed => 12,
            Color::Pink => 13,
            Color::Yellow => 14,
            Color::White => 15,
        }
    }

    /// Parse a color from the name a user typed.
    pub fn from_string(s: &str) -> (r: Option<Color>)
        ensures
            r == color_of_name(s@),
    {
        if str_eq(s, "red") {
            Some(Color::Red)
        } else if str_eq(s, "blue") {
            Some(Color::Blue)
        } else if str_eq(s, "green") {
            Some(Color::Green)
        } else if str_eq(s, "cyan") {
            Some(Color::Cyan)
        } else if str_eq(s, "brown") {
            Some(Color::Brown)
        } else if str_eq(s, "magenta") {
            Some(Color::Magenta)
        } else if str_eq(s, "pink") {
            Some(Color::Pink)
        } else if str_eq(s, "yellow") {
            Some(Color::Yellow)
        } else if str_eq(s, "white") {
            Some(Color::White)
        } else if str_eq(s, "black") {
            Some(Color::Black)
        } else {
            None
        }
    }
}

/// A foreground and background color packed into one attribute byte.
#[derive(Clone, Copy, PartialEq, Eq, Structural, Debug)]
pub struct ColorCode {
    pub value: u8,
}

impl ColorCode {
    /// Pack a foreground and a background color: the background in the
    /// high nibble, the foreground in the low one.
    pub fn new(foreground: Color, background: Color) -> (r: Self)
        ensures
            r.value == (color_value_spec(background) << 4u8) | color_value_spec(foreground),
    {
        ColorCode { value: (background.value() << 4u8) | foreground.value() }
    }
}

} // verus!
