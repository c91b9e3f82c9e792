//! Monster mind puzzle solver for 3/4/5 peg puzzles, and for the 7 peg
//! hexagonal variant.
//!
//! A puzzle of N size consists of:
//!
//! - The player's *guess* at the top. This is what we are solving for.
//! - A number of *clues*
//!
//! The *clues* consist of N *pegs* of different colors.
//! Each clue also has an *indicator* of how much it matches with the solution.
//! An *indicator* consists of 0 or more *hearts* and *dots*.
//! A *heart* indicates an exact match: a peg that has both the right color and
//! the right location.
//! A *dot* indicates a partial match: a peg that has the right color, but is
//! not at the right location.
//!
//! In order for a *guess* to be correct, it must not contradict any of the
//! *clues*.
use vstd::prelude::*;

pub mod board;
pub mod bruteforce;
pub mod combinations;
pub mod counting;
pub mod logical;
pub mod odometer;
pub mod score;
pub mod short_form;
pub mod solution;
pub mod util;

pub use bruteforce::{solve_bruteforce, solve_bruteforce_raw};
pub use short_form::parse as parse_shortform;
pub use util::{IncWrap, ValLooper};

verus! {

/// One color/type unit occupying one slot of a guess or clue.
pub type Peg = u8;

/// A run of pegs: a guess, or the pegs of a clue.
pub type Pegs = [Peg];

/// A historical guess together with the indicator that scored it.
#[derive(Debug, Clone)]
pub struct Clue {
    pub indicator: Indicator,
    pub pegs: Vec<Peg>,
}

/// What a clue says: its pegs as a sequence, and its indicator.
pub struct ClueView {
    pub indicator: Indicator,
    pub pegs: Seq<Peg>,
}

impl View for Clue {
    type V = ClueView;

    open spec fn view(&self) -> ClueView {
        ClueView { indicator: self.indicator, pegs: self.pegs@ }
    }
}

impl DeepView for Clue {
    type V = ClueView;

    open spec fn deep_view(&self) -> ClueView {
        self.view()
    }
}

/// The score of a clue: how many of its pegs are partial and exact matches.
#[derive(PartialEq, Eq, Structural, Debug, Clone, Copy)]
pub struct Indicator {
    pub dots: u8,
    pub hearts: u8,
}

impl Indicator {
    /// The number of markers, hearts and dots together.
    pub open spec fn markers(self) -> nat {
        (self.hearts + self.dots) as nat
    }

    /// How many more markers `other` has than `self`; negative where it has
    /// fewer.
    pub fn difference(&self, other: &Indicator) -> (diff: i16)
        ensures
            diff == other.markers() - self.markers(),
    {
        (other.hearts as i16 + other.dots as i16) - (self.hearts as i16 + self.dots as i16)
    }
}

/// What a slot of a clue has been used for while a guess is scored against it.
#[derive(Copy, Clone, PartialEq, Eq, Structural)]
pub enum Marker {
    Unmarked,
    Dot,
    Heart,
}

} // verus!
