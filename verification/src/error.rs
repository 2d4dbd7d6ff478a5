use vstd::prelude::*;

verus! {

/// The ways an offsetting request can fail.
#[derive(Debug, Clone, Copy, PartialEq, Eq, Structural)]
pub enum OffsetError {
    InvalidTolerance,
    NoValidRegions,
    CollapsedPolygon,
    UnclosedPolygon,
    RegionSortingFailed,
    SinglePointRegion,
    InvalidResult,
}

/// The human-readable description of each error.
pub open spec fn error_message(e: OffsetError) -> Seq<char> {
    match e {
        OffsetError::InvalidTolerance => "The tolerance can't be below or equal to 0"@,
        OffsetError::NoValidRegions => "Offset operation resulted in no valid regions"@,
        OffsetError::CollapsedPolygon => "Offset operation resulted in no valid regions (collapsed polygon)"@,
        OffsetError::UnclosedPolygon => "Unclosed polygon"@,
        OffsetError::RegionSortingFailed => "No valid regions found after sorting"@,
        OffsetError::SinglePointRegion => "Offset resulted in a single point region"@,
        OffsetError::InvalidResult => "Offset produced an invalid result"@,
    }
}

impl OffsetError {
    /// The description of this error, as its `Display` text.
    pub fn message(&self) -> (s: &'static str)
        ensures
            s@ == error_message(*self),
    {
        match self {
            OffsetError::InvalidTolerance => "The tolerance can't be below or equal to 0",
            OffsetError::NoValidRegions => "Offset operation resulted in no valid regions",
            OffsetError::CollapsedPolygon => "Offset operation resulted in no valid regions (collapsed polygon)",
            OffsetError::UnclosedPolygon => "Unclosed polygon",
            OffsetError::RegionSortingFailed => "No valid regions found after sorting",
            OffsetError::SinglePointRegion => "Offset resulted in a single point region",
            OffsetError::InvalidResult => "Offset produced an invalid result",
        }
    }
}

} // verus!
