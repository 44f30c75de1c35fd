use vstd::prelude::*;

verus! {

/// One square of the board.
///
/// `adjacent` counts the mines among the eight surrounding squares; it is
/// kept up to date for squares that are not mines and carries no meaning for
/// mines. A flagged square is never revealed.
#[derive(Clone, Copy, Debug, PartialEq, Eq, Structural)]
pub struct Cell {
    pub adjacent: u8,
    pub is_revealed: bool,
    pub is_mine: bool,
    pub is_flagged: bool,
}

/// The colour a square is drawn in.
#[derive(Clone, Copy, Debug, PartialEq, Eq, Structural)]
pub enum Color {
    Plain,
    Blue,
    Green,
    Red,
    Purple,
    Yellow,
}

impl Default for Cell {
    /// A hidden, unflagged square that is not a mine.
    fn default() -> (r: Cell)
        ensures
            r == Cell::blank(),
    {
        Cell { adjacent: 0, is_revealed: false, is_mine: false, is_flagged: false }
    }
}

/// The character that stands for an adjacency count from 0 to 9.
pub open spec fn digit_char(n: u8) -> char {
    match n {
        0 => '0',
        1 => '1',
        2 => '2',
        3 => '3',
        4 => '4',
        5 => '5',
        6 => '6',
        7 => '7',
        8 => '8',
        _ => '9',
    }
}

/// The palette of the adjacency counts.
pub open spec fn digit_color(n: u8) -> Color {
    match n {
        0 => Color::Plain,
        1 => Color::Blue,
        2 => Color::Green,
        3 => Color::Red,
        4 => Color::Purple,
        _ => Color::Yellow,
    }
}

impl Cell {
    pub open spec fn blank() -> Cell {
        Cell { adjacent: 0, is_revealed: false, is_mine: false, is_flagged: false }
    }

    /// The square as the player sees it once it has been uncovered.
    pub open spec fn uncovered(self) -> Cell {
        Cell { is_revealed: true, is_flagged: false, ..self }
    }

    /// The square as shown once the game is lost: no flag, and revealed if
    /// it is a mine.
    pub open spec fn after_loss(self) -> Cell {
        Cell { is_flagged: false, is_revealed: self.is_revealed || self.is_mine, ..self }
    }

    /// A hidden square that is not a mine and has no mine around it: digging
    /// it uncovers its whole empty region.
    pub open spec fn opens_region(self) -> bool {
        !self.is_revealed && !self.is_mine && self.adjacent == 0
    }

    /// A square that ends the game when it is dug.
    pub open spec fn detonates(self) -> bool {
        self.is_mine && !self.is_flagged
    }

    pub open spec fn glyph_spec(self) -> char {
        if self.is_flagged {
            '%'
        } else if !self.is_revealed {
            '?'
        } else if self.is_mine {
            '@'
        } else if self.adjacent == 0 {
            ' '
        } else {
            digit_char(self.adjacent)
        }
    }

    pub open spec fn color_spec(self) -> Color {
        if self.is_flagged {
            Color::Yellow
        } else if !self.is_revealed {
            Color::Plain
        } else if self.is_mine {
            Color::Red
        } else {
            digit_color(self.adjacent)
        }
    }

    /// The character drawn for this square: `%` flagged, `?` hidden, `@` a
    /// revealed mine, blank for a revealed square with no mine around it, and
    /// the count otherwise.
    pub fn glyph(self) -> (r: char)
        requires
            self.adjacent <= 8,
        ensures
            r == self.glyph_spec(),
    {
        if self.is_flagged {
            '%'
        } else if !self.is_revealed {
            '?'
        } else if self.is_mine {
            '@'
        } else {
            match self.adjacent {
                0 => ' ',
                1 => '1',
                2 => '2',
                3 => '3',
                4 => '4',
                5 => '5',
                6 => '6',
                7 => '7',
                _ => '8',
            }
        }
    }

    /// The colour this square is drawn in.
    pub fn color(self) -> (r: Color)
        ensures
            r == self.color_spec(),
    {
        if self.is_flagged {
            Color::Yellow
        } else if !self.is_revealed {
            Color::Plain
        } else if self.is_mine {
            Color::Red
        } else {
            match self.adjacent {
                0 => Color::Plain,
                1 => Color::Blue,
                2 => Color::Green,
                3 => Color::Red,
                4 => Color::Purple,
                _ => Color::Yellow,
            }
        }
    }
}

impl Color {
    pub open spec fn code_spec(self) -> u8 {
        match self {
            Color::Plain => 0,
            Color::Blue => 94,
            Color::Green => 92,
            Color::Red => 91,
            Color::Purple => 95,
            Color::Yellow => 93,
        }
    }

    /// The ANSI select-graphic-rendition code of the colour (0 resets).
    pub fn ansi_code(self) -> (r: u8)
        ensures
            r == self.code_spec(),
    {
        match self {
            Color::Plain => 0,
            Color::Blue => 94,
            Color::Green => 92,
            Color::Red => 91,
            Color::Purple => 95,
            Color::Yellow => 93,
        }
    }
}

} // verus!
