use vstd::prelude::*;

verus! {

/// The failures the library reports: a malformed coordinate text (naming the
/// offending component) or a coordinate outside the grid handed to the
/// distance computation.
#[derive(Debug, Clone, Copy, PartialEq, Eq, Structural)]
pub enum MazeError {
    /// The x component of a coordinate text could not be parsed.
    InvalidCoordinateX,
    /// The y component of a coordinate text could not be parsed.
    InvalidCoordinateY,
    /// A coordinate lies outside the grid extent.
    OutOfBounds,
}

impl MazeError {
    /// A short description of the error.
    pub fn describe(&self) -> (r: &'static str)
        ensures
            self is InvalidCoordinateX ==> r@ == "invalid x component of coordinate"@,
            self is InvalidCoordinateY ==> r@ == "invalid y component of coordinate"@,
            self is OutOfBounds ==> r@ == "coordinate out of grid bounds"@,
    {
        match self {
            MazeError::InvalidCoordinateX => "invalid x component of coordinate",
            MazeError::InvalidCoordinateY => "invalid y component of coordinate",
            MazeError::OutOfBounds => "coordinate out of grid bounds",
        }
    }
}

} // verus!
