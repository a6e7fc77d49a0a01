use vstd::prelude::*;

verus! {

/// How much to report.
#[derive(Debug, Clone, Copy, PartialEq, Eq, Structural)]
pub enum Verbosity {
    Lvl0,
    Lvl1,
    Lvl2,
    Lvl3,
}

/// The number of a verbosity level.
pub open spec fn level(v: Verbosity) -> nat {
    match v {
        Verbosity::Lvl0 => 0,
        Verbosity::Lvl1 => 1,
        Verbosity::Lvl2 => 2,
        Verbosity::Lvl3 => 3,
    }
}

impl Verbosity {
    /// The level numbered `lvl`; any number above 3 gives the highest level.
    pub fn new(lvl: usize) -> (r: Self)
        ensures
            level(r) == if lvl < 3 { lvl as nat } else { 3 },
    {
        match lvl {
            0 => Verbosity::Lvl0,
            1 => Verbosity::Lvl1,
            2 => Verbosity::Lvl2,
            _ => Verbosity::Lvl3,
        }
    }

    /// The number of the level.
    pub fn as_usize(&self) -> (r: usize)
        ensures
            r == level(*self),
    {
        match self {
            Verbosity::Lvl0 => 0usize,
            Verbosity::Lvl1 => 1usize,
            Verbosity::Lvl2 => 2usize,
            Verbosity::Lvl3 => 3usize,
        }
    }
}

/// Decides which messages are shown.
#[derive(Debug)]
pub struct Logger {
    /// Verbosity level
    verbosity: Verbosity,
}

impl Logger {
    /// The level of messages shown at most.
    pub closed spec fn threshold(&self) -> nat {
        level(self.verbosity)
    }

    /// A logger that shows messages up to level `verbosity`.
    pub fn new(verbosity: usize) -> (r: Self)
        ensures
            r.threshold() == if verbosity < 3 { verbosity as nat } else { 3 },
    {
        Logger { verbosity: Verbosity::new(verbosity) }
    }

    /// A message at level `lvl` is shown.
    pub fn shows(&self, lvl: Verbosity) -> (r: bool)
        ensures
            r == (level(lvl) <= self.threshold()),
    {
        lvl.as_usize() <= self.verbosity.as_usize()
    }
}

} // verus!
