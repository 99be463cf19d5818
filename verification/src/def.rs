//! The data model: colours, codes, hints and the game's configuration.

use vstd::prelude::*;

verus! {

/// A code: one colour per pin, each colour an integer below the colour count.
pub type Code = Vec<u8>;

/// An ordered collection of distinct codes.
pub type CodeSet = Vec<Code>;

/// Feedback for a guess: the number of hits, then the number of blows.
pub type Hint = (u8, u8);

/// How the next guess is chosen.
#[derive(Debug, Clone, Copy, PartialEq, Eq, Structural)]
pub enum Policy {
    /// The first remaining candidate.
    Firstpick,
    /// The guess whose largest hint bucket is smallest.
    Minmax,
}

/// What a run does.
#[derive(Debug, Clone, Copy, PartialEq, Eq, Structural)]
pub enum Mode {
    /// Guess a secret interactively.
    Guess,
    /// Build the decision tree of the policy.
    Mktree,
    /// Build decision trees for a fixed set of configurations.
    Benchmark,
}

/// The configuration of a game.  It is fixed for a whole run.
#[derive(Debug, Clone, Copy)]
pub struct Context {
    /// Number of colours; a colour is an integer below it.
    pub color_num: u8,
    /// Number of pins in a code.
    pub pin_num: u8,
    /// Whether a colour may occur more than once in a code.
    pub duplicate: bool,
    pub policy: Policy,
    pub mode: Mode,
}

/// Why a configuration cannot be played.
#[derive(Debug, Clone, Copy, PartialEq, Eq, Structural)]
pub enum ConfigError {
    /// There is no colour.
    NoColor,
    /// There is no pin.
    NoPin,
    /// Colours may not repeat and there are more pins than colours, so no code exists.
    EmptyCodeSpace,
    /// The number of codes does not fit the machine's word.
    TooManyCodes,
}

/// Why a hint cannot be used.
#[derive(Debug, Clone, Copy, PartialEq, Eq, Structural)]
pub enum GameError {
    /// Hits and blows together exceed the number of pins.
    InvalidHint,
    /// No remaining candidate earns the hint against the guess.
    ImpossibleHint,
}

/// `code` is a legal code: it has `pin_num` pins, every colour is below
/// `color_num`, and its colours are pairwise distinct unless `duplicate`.
pub open spec fn is_code(code: Seq<u8>, color_num: u8, pin_num: u8, duplicate: bool) -> bool {
    &&& code.len() == pin_num
    &&& forall|i: int| 0 <= i < code.len() ==> code[i] < color_num
    &&& !duplicate ==> code.no_duplicates()
}

/// The codes of a code set as sequences of colours.
pub open spec fn codes_view(codes: Seq<Code>) -> Seq<Seq<u8>> {
    codes.map_values(|code: Code| code@)
}

impl Context {
    /// The configuration admits at least one code.
    pub open spec fn playable(&self) -> bool {
        &&& self.color_num >= 1
        &&& self.pin_num >= 1
        &&& self.duplicate || self.pin_num <= self.color_num
    }

    /// `code` is a legal code of this configuration.
    pub open spec fn legal(&self, code: Seq<u8>) -> bool {
        is_code(code, self.color_num, self.pin_num, self.duplicate)
    }

    /// `code` has the right length and colours; repeated colours are not looked at.
    pub open spec fn shaped(&self, code: Seq<u8>) -> bool {
        is_code(code, self.color_num, self.pin_num, true)
    }

    /// What `validate` answers.
    pub open spec fn validate_spec(&self) -> Result<(), ConfigError> {
        if self.color_num == 0 {
            Err(ConfigError::NoColor)
        } else if self.pin_num == 0 {
            Err(ConfigError::NoPin)
        } else if !self.duplicate && self.pin_num > self.color_num {
            Err(ConfigError::EmptyCodeSpace)
        } else {
            Ok(())
        }
    }

    /// Checks that the configuration admits at least one code, and says why
    /// if it does not: no colour, else no pin, else more pins than colours
    /// where colours may not repeat.
    pub fn validate(&self) -> (checked: Result<(), ConfigError>)
        ensures
            checked == self.validate_spec(),
            checked is Ok <==> self.playable(),
    {
        if self.color_num == 0 {
            Err(ConfigError::NoColor)
        } else if self.pin_num == 0 {
            Err(ConfigError::NoPin)
        } else if !self.duplicate && self.pin_num > self.color_num {
            Err(ConfigError::EmptyCodeSpace)
        } else {
            Ok(())
        }
    }
}

} // verus!
