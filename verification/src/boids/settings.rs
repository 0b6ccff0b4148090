//! How the borders of the world treat a boid.

use vstd::prelude::*;

verus! {

/// Describes the behavior of a boid near or on the border.
#[derive(Clone, Copy, Debug, PartialEq, Eq)]
pub enum BorderSettings {
    /// No special behavior.
    NoBorder,
    /// Boids are forced away from all borders.
    Bounded,
    /// Boids are forced away from the bottom and top border and wrap around
    /// the right and left ones.
    BoundedVertical,
    /// Boids are forced away from the right and left border and wrap around
    /// the bottom and top ones.
    BoundedHorizontal,
    /// Boids wrap around all borders.
    Wrapping,
}

impl BorderSettings {
    /// Whether a boid near the left or the right border is forced away from it.
    pub open spec fn spec_forces_horizontal(self) -> bool {
        self is Bounded || self is BoundedHorizontal
    }

    /// Whether a boid near the top or the bottom border is forced away from it.
    pub open spec fn spec_forces_vertical(self) -> bool {
        self is Bounded || self is BoundedVertical
    }

    /// Whether a boid that passes the left or the right border comes back
    /// in at the other.
    pub open spec fn spec_wraps_horizontal(self) -> bool {
        self is Wrapping || self is BoundedVertical
    }

    /// Whether a boid that passes the top or the bottom border comes back
    /// in at the other.
    pub open spec fn spec_wraps_vertical(self) -> bool {
        self is Wrapping || self is BoundedHorizontal
    }

    /// Whether a boid near the left or the right border is forced away from it.
    #[verifier::when_used_as_spec(spec_forces_horizontal)]
    pub fn forces_horizontal(self) -> (forces: bool)
        ensures
            forces == self.spec_forces_horizontal(),
    {
        match self {
            BorderSettings::Bounded | BorderSettings::BoundedHorizontal => true,
            _ => false,
        }
    }

    /// Whether a boid near the top or the bottom border is forced away from it.
    #[verifier::when_used_as_spec(spec_forces_vertical)]
    pub fn forces_vertical(self) -> (forces: bool)
        ensures
            forces == self.spec_forces_vertical(),
    {
        match self {
            BorderSettings::Bounded | BorderSettings::BoundedVertical => true,
            _ => false,
        }
    }

    /// Whether a boid that passes the left or the right border comes back
    /// in at the other.
    #[verifier::when_used_as_spec(spec_wraps_horizontal)]
    pub fn wraps_horizontal(self) -> (wraps: bool)
        ensures
            wraps == self.spec_wraps_horizontal(),
    {
        match self {
            BorderSettings::Wrapping | BorderSettings::BoundedVertical => true,
            _ => false,
        }
    }

    /// Whether a boid that passes the top or the bottom border comes back
    /// in at the other.
    #[verifier::when_used_as_spec(spec_wraps_vertical)]
    pub fn wraps_vertical(self) -> (wraps: bool)
        ensures
            wraps == self.spec_wraps_vertical(),
    {
        match self {
            BorderSettings::Wrapping | BorderSettings::BoundedHorizontal => true,
            _ => false,
        }
    }

    /// No border both forces a boid away and lets it through to the other
    /// side; and every border but those of [`BorderSettings::NoBorder`] does
    /// one of the two.
    pub proof fn lemma_force_or_wrap(self)
        ensures
            !(self.forces_horizontal() && self.wraps_horizontal()),
            !(self.forces_vertical() && self.wraps_vertical()),
            self !is NoBorder ==> (self.forces_horizontal() || self.wraps_horizontal()) && (
            self.forces_vertical() || self.wraps_vertical()),
    {
    }
}

} // verus!
