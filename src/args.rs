//! The mode a sort runs in, and the options that carry it.

use vstd::prelude::*;

verus! {

/// Flags shared by every mode.
#[derive(Clone, Copy, Debug, PartialEq, Eq, Structural)]
pub struct Args {
    /// Fold ASCII letters to lower case before comparing non-numeric text.
    pub insensitive: bool,
}

/// How digit runs are read: signed decimal, unsigned decimal or unsigned hexadecimal.
#[derive(Clone, Copy, Debug, PartialEq, Eq, Structural)]
pub enum Mode {
    /// Signed decimal: a `-` right before a digit run belongs to the number.
    Default(Args),
    /// Unsigned decimal: `-` is an ordinary character.
    NoNegatives(Args),
    /// Unsigned hexadecimal, without sign.
    Hexadecimal(Args),
}

/// The configuration the sorter runs with.
#[derive(Clone, Copy, Debug, PartialEq, Eq, Structural)]
pub struct Options {
    pub mode: Mode,
}

impl Mode {
    pub open spec fn spec_consider_hex(&self) -> bool {
        self is Hexadecimal
    }

    pub open spec fn spec_sort_negatives(&self) -> bool {
        self is Default
    }

    pub open spec fn spec_insensitive(&self) -> bool {
        match self {
            Mode::Default(a) => a.insensitive,
            Mode::NoNegatives(a) => a.insensitive,
            Mode::Hexadecimal(a) => a.insensitive,
        }
    }

    /// Whether digit runs are read in base sixteen.
    #[verifier::when_used_as_spec(spec_consider_hex)]
    pub fn consider_hex(&self) -> (r: bool)
        ensures
            r == self.spec_consider_hex(),
    {
        match self {
            Mode::Hexadecimal(_) => true,
            _ => false,
        }
    }

    /// Whether a leading `-` makes a number negative.
    #[verifier::when_used_as_spec(spec_sort_negatives)]
    pub fn sort_negatives(&self) -> (r: bool)
        ensures
            r == self.spec_sort_negatives(),
    {
        match self {
            Mode::Default(_) => true,
            _ => false,
        }
    }

    /// Whether non-numeric text is compared without regard to ASCII case.
    #[verifier::when_used_as_spec(spec_insensitive)]
    pub fn insensitive(&self) -> (r: bool)
        ensures
            r == self.spec_insensitive(),
    {
        match self {
            Mode::Default(a) => a.insensitive,
            Mode::NoNegatives(a) => a.insensitive,
            Mode::Hexadecimal(a) => a.insensitive,
        }
    }
}

impl Default for Mode {
    /// Signed decimal, case sensitive.
    fn default() -> (r: Mode)
        ensures
            r == Mode::Default(Args { insensitive: false }),
    {
        Mode::Default(Args { insensitive: false })
    }
}

impl Options {
    /// Options running in the given mode.
    pub fn new(mode: Mode) -> (r: Options)
        ensures
            r.mode == mode,
    {
        Options { mode }
    }
}

impl Default for Options {
    /// The signed decimal, case-sensitive mode.
    fn default() -> (r: Options)
        ensures
            r.mode == Mode::Default(Args { insensitive: false }),
    {
        Options { mode: Mode::Default(Args { insensitive: false }) }
    }
}

} // verus!
