use vstd::prelude::*;

verus! {

/// A stop was asked for by an id that no stop of the feed carries.
#[derive(Debug, Clone, Copy, PartialEq, Eq, Structural)]
pub struct NotFoundError;

impl NotFoundError {
    /// What to tell the user.
    pub fn message(&self) -> (text: String)
        ensures
            text@ == "no stop of the feed has the id that was asked for"@,
    {
        String::from_str("no stop of the feed has the id that was asked for")
    }
}

/// A bounding box has no extent along one axis, so that no scale fits it to
/// the canvas.
#[derive(Debug, Clone, Copy, PartialEq, Eq, Structural)]
pub struct DegenerateGeometryError;

impl DegenerateGeometryError {
    /// What to tell the user.
    pub fn message(&self) -> (text: String)
        ensures
            text@ == "the points span no area: their box has no width or no height"@,
    {
        String::from_str("the points span no area: their box has no width or no height")
    }
}

} // verus!
