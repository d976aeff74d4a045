use vstd::prelude::*;
use crate::text::{decimal, push_char, push_decimal};

verus! {

/// How an untouched cell looks, and a hidden mine, which must not show.
pub const CLOSED: &'static str = "🟦 ";

/// How a revealed cell with no mine around it looks.
pub const OPENED: &'static str = "⬜ ";

/// How an exploded mine looks.
pub const MINE: &'static str = "💣 ";

/// How a marked cell looks, mined or not.
pub const FLAG: &'static str = "🚩 ";

/// What has happened to a mine.
#[derive(Clone, Copy, Debug, PartialEq, Eq, Structural)]
pub enum MineState {
    Hidden,
    Detonated,
    Flagged,
}

/// The state of one cell.
#[derive(Clone, Copy, Debug, PartialEq, Eq, Structural)]
pub enum Field {
    /// Untouched, no mine.
    Closed,
    /// Revealed, with the number of mines among its neighbours.
    Opened(u8),
    /// Holds a mine.
    Mine(MineState),
    /// Marked by the player, no mine.
    Flagged,
}

/// A cell's coordinates: row, then column, both counted from zero.
pub type Position = (usize, usize);

impl Field {
    /// The cell holds a mine, in whatever state.
    pub open spec fn is_mine(self) -> bool {
        self is Mine
    }

    /// The player has marked the cell, mined or not.
    pub open spec fn is_marked(self) -> bool {
        self == Field::Flagged || self == Field::Mine(MineState::Flagged)
    }

    /// The cell is neither revealed nor marked: a move on it reveals something.
    pub open spec fn is_unrevealed(self) -> bool {
        self == Field::Closed || self == Field::Mine(MineState::Hidden)
    }

    /// The cell is neither revealed nor marked: a chord opens it.
    pub open spec fn is_chord_target(self) -> bool {
        self == Field::Closed || self is Mine && self != Field::Mine(MineState::Flagged)
    }

    /// The cell is revealed and shows the count `n`.
    pub open spec fn shows(self, n: int) -> bool {
        self matches Field::Opened(k) && k as int == n
    }

    /// The state after the player toggles the flag on a cell in state `self`.
    pub open spec fn toggled(self) -> Field {
        match self {
            Field::Closed => Field::Flagged,
            Field::Flagged => Field::Closed,
            Field::Mine(MineState::Hidden) => Field::Mine(MineState::Flagged),
            Field::Mine(MineState::Flagged) => Field::Mine(MineState::Hidden),
            Field::Opened(_) => self,
            Field::Mine(MineState::Detonated) => self,
        }
    }

    /// How the cell looks to the player.
    pub open spec fn glyph(self) -> Seq<char> {
        match self {
            Field::Closed => CLOSED@,
            Field::Opened(n) => if n > 0 {
                seq![' '] + decimal(n as nat) + seq![' ']
            } else {
                OPENED@
            },
            Field::Mine(MineState::Hidden) => CLOSED@,
            Field::Mine(MineState::Detonated) => MINE@,
            Field::Mine(MineState::Flagged) => FLAG@,
            Field::Flagged => FLAG@,
        }
    }

    /// The text that shows the cell: a hidden mine looks like an untouched
    /// cell, a marked mine like any marked cell, and a revealed cell shows its
    /// count between two spaces unless that is zero.
    pub fn to_string(&self) -> (text: String)
        ensures
            text@ == self.glyph(),
    {
        match self {
            Field::Closed => CLOSED.to_owned(),
            Field::Opened(n) => {
                if *n > 0 {
                    let mut text = String::new();
                    push_char(&mut text, ' ');
                    push_decimal(&mut text, *n);
                    push_char(&mut text, ' ');
                    proof {
                        assert(text@ =~= seq![' '] + decimal(*n as nat) + seq![' ']);
                    }
                    text
                } else {
                    OPENED.to_owned()
                }
            },
            Field::Mine(state) => match state {
                MineState::Hidden => CLOSED.to_owned(),
                MineState::Detonated => MINE.to_owned(),
                MineState::Flagged => FLAG.to_owned(),
            },
            Field::Flagged => FLAG.to_owned(),
        }
    }

    /// Toggling twice gives the state back; a revealed or exploded cell does not
    /// change even once.
    pub proof fn lemma_toggle_twice(self)
        ensures
            self.toggled().toggled() == self,
            (self is Opened || self == Field::Mine(MineState::Detonated)) ==> self.toggled()
                == self,
    {
    }
}

} // verus!
