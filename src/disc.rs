use vstd::prelude::*;

verus! {

/// A light or dark game disc.
#[derive(Debug, Copy, Clone, PartialEq, Eq, Structural)]
pub enum Disc {
    Light,
    Dark,
}

impl Disc {
    /// The color of the other player.
    pub open spec fn opp(self) -> Disc {
        match self {
            Disc::Light => Disc::Dark,
            Disc::Dark => Disc::Light,
        }
    }

    /// Returns the opposite color disc.
    pub fn opposite(&self) -> (r: Disc)
        ensures
            r == self.opp(),
            r != *self,
    {
        match self {
            Disc::Light => Disc::Dark,
            Disc::Dark => Disc::Light,
        }
    }
}

impl Default for Disc {
    /// Dark moves first, so it is the default color.
    fn default() -> (r: Disc)
        ensures
            r == Disc::Dark,
    {
        Disc::Dark
    }
}

} // verus!
