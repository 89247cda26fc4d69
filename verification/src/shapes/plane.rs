use vstd::prelude::*;

verus! {

/// A plane without parameters of its own: a place for a second kind of shape
/// beside the sphere.
#[derive(Clone, Copy, Debug, PartialEq)]
pub struct Plane {}

impl Plane {
    /// The plane.
    pub fn new() -> (plane: Plane)
        ensures
            plane == (Plane {}),
    {
        Plane {}
    }
}

} // verus!
