use vstd::prelude::*;

verus! {

/// The code of the character `0`; the other digits follow it.
pub const DIGIT_ZERO: u8 = 48;

/// One cell of a field.
#[derive(PartialEq, Eq, Debug)]
pub enum Dot {
    /// A mine.
    Mine,
    /// A cell without a mine, with the number of mines among its neighbours.
    Safe(u8),
    /// A flag set by the player; it keeps the value the cell had before.
    Flag(Box<Dot>),
    /// A cell that has not been generated yet.
    Null,
}

impl Dot {
    /// The value of the cell with a flag, if there is one, taken off.
    pub open spec fn base(self) -> Dot {
        match self {
            Dot::Flag(inner) => *inner,
            _ => self,
        }
    }

    /// The cell holds a mine, flagged or not.
    pub open spec fn mined(self) -> bool {
        self.base() == Dot::Mine
    }

    /// The cell is safe and no neighbour holds a mine, flagged or not.
    pub open spec fn blank(self) -> bool {
        self.base() == Dot::Safe(0)
    }

    /// The cell carries a flag.
    pub open spec fn flagged(self) -> bool {
        self is Flag
    }

    /// A value that a generated cell may have: a mine or a safe cell with a
    /// count of at most eight, under at most one flag.
    pub open spec fn settled(self) -> bool {
        match self.base() {
            Dot::Mine => true,
            Dot::Safe(n) => n <= 8,
            _ => false,
        }
    }

    /// The cell after the player has toggled its flag: a flag comes off, any
    /// other value goes under a new flag.
    pub open spec fn toggled(self) -> Dot {
        match self {
            Dot::Flag(inner) => *inner,
            _ => Dot::Flag(Box::new(self)),
        }
    }

    /// The character that shows what a cell without a flag holds: `x` for a
    /// mine, a blank for a safe cell with no mine around it, the digit for a
    /// safe cell with up to nine, and `_` for anything else.
    pub open spec fn face(self) -> char {
        match self {
            Dot::Mine => 'x',
            Dot::Safe(n) => if n == 0 {
                ' '
            } else if n <= 9 {
                (DIGIT_ZERO + n) as char
            } else {
                '_'
            },
            _ => '_',
        }
    }

    /// The character that stands for the cell on the screen.
    ///
    /// An opened cell shows what it holds, whether or not a flag was left on
    /// it. A closed cell shows `f` under a flag and `.` otherwise.
    pub open spec fn glyph(self, opened: bool) -> char {
        if opened {
            self.base().face()
        } else if self.flagged() {
            'f'
        } else {
            '.'
        }
    }

    /// Whether the cell holds a mine, under a flag or not.
    pub fn is_mine(&self) -> (r: bool)
        ensures
            r == self.mined(),
    {
        match self {
            Dot::Mine => true,
            Dot::Flag(inner) => match **inner {
                Dot::Mine => true,
                _ => false,
            },
            _ => false,
        }
    }

    /// Whether the cell is safe with no mine around it, under a flag or not.
    pub fn is_blank(&self) -> (r: bool)
        ensures
            r == self.blank(),
    {
        match self {
            Dot::Safe(n) => *n == 0,
            Dot::Flag(inner) => match **inner {
                Dot::Safe(n) => n == 0,
                _ => false,
            },
            _ => false,
        }
    }

    /// The character that stands for the cell on the screen.
    pub fn to_char(&self, opened: bool) -> (c: char)
        ensures
            c == self.glyph(opened),
    {
        if opened {
            match self {
                Dot::Flag(inner) => inner.to_face(),
                _ => self.to_face(),
            }
        } else {
            match self {
                Dot::Flag(_) => 'f',
                _ => '.',
            }
        }
    }

    /// The character that shows what a cell without a flag holds.
    fn to_face(&self) -> (c: char)
        ensures
            c == self.face(),
    {
        match self {
            Dot::Mine => 'x',
            Dot::Safe(n) => {
                if *n == 0 {
                    ' '
                } else if *n <= 9 {
                    (DIGIT_ZERO + *n) as char
                } else {
                    '_'
                }
            },
            _ => '_',
        }
    }
}

impl Clone for Dot {
    fn clone(&self) -> (r: Dot)
        ensures
            r == *self,
        decreases self,
    {
        match self {
            Dot::Mine => Dot::Mine,
            Dot::Safe(n) => Dot::Safe(*n),
            Dot::Flag(inner) => {
                let inner: &Dot = &**inner;
                Dot::Flag(Box::new(inner.clone()))
            },
            Dot::Null => Dot::Null,
        }
    }
}

} // verus!
