use vstd::prelude::*;

verus! {

/// Why a record gave no observation, or a query no position.
#[derive(Clone, Copy, Debug, PartialEq, Eq, Structural)]
pub enum GeoError {
    /// The coordinate text is not two decimal numbers around a comma.
    MalformedCoordinate,
    /// The timestamp text is not an RFC 3339 date-time with an offset.
    MalformedTimestamp,
    /// The query instant lies outside the span of the given pair.
    OutOfBounds,
    /// Neither stream holds an observation on both sides of the query.
    Unresolved,
}

impl GeoError {
    /// A sentence that describes the error.
    pub fn message(&self) -> (r: String)
        ensures
            r@ == match self {
                GeoError::MalformedCoordinate => "Invalid latitude/longitude format"@,
                GeoError::MalformedTimestamp => "Invalid timestamp format"@,
                GeoError::OutOfBounds => "Timestamp is out of bounds"@,
                GeoError::Unresolved => "No valid line found"@,
            },
    {
        match self {
            GeoError::MalformedCoordinate => String::from_str("Invalid latitude/longitude format"),
            GeoError::MalformedTimestamp => String::from_str("Invalid timestamp format"),
            GeoError::OutOfBounds => String::from_str("Timestamp is out of bounds"),
            GeoError::Unresolved => String::from_str("No valid line found"),
        }
    }
}

} // verus!
