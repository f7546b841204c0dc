use vstd::prelude::*;

verus! {

/// Why a diagram could not be built.
#[derive(Clone, Copy, PartialEq, Eq, Structural, Debug)]
pub enum BuildError {
    /// Two sites lie at the same point.
    DuplicateSite,
    /// The diagram or the beachline is in a state that the geometry of a sweep cannot
    /// bring about.
    GeometryInvariant,
    /// A coordinate of a site is a NaN or infinite.
    NonFiniteInput,
}

impl BuildError {
    /// The error in words.
    pub fn message(&self) -> (r: &'static str)
        ensures
            r@ == Self::message_spec(*self),
    {
        match self {
            BuildError::DuplicateSite => "two sites lie at the same point",
            BuildError::GeometryInvariant => "the diagram is in an impossible state",
            BuildError::NonFiniteInput => "a coordinate of a site is not finite",
        }
    }

    pub open spec fn message_spec(self) -> Seq<char> {
        match self {
            BuildError::DuplicateSite => "two sites lie at the same point"@,
            BuildError::GeometryInvariant => "the diagram is in an impossible state"@,
            BuildError::NonFiniteInput => "a coordinate of a site is not finite"@,
        }
    }
}

} // verus!
