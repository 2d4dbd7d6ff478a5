use polygon_offsetting::OffsetError;

#[test]
fn each_error_has_its_message() {
    assert_eq!(OffsetError::InvalidTolerance.message(), "The tolerance can't be below or equal to 0");
    assert_eq!(OffsetError::NoValidRegions.message(), "Offset operation resulted in no valid regions");
    assert_eq!(
        OffsetError::CollapsedPolygon.message(),
        "Offset operation resulted in no valid regions (collapsed polygon)"
    );
    assert_eq!(OffsetError::UnclosedPolygon.message(), "Unclosed polygon");
    assert_eq!(OffsetError::RegionSortingFailed.message(), "No valid regions found after sorting");
    assert_eq!(OffsetError::SinglePointRegion.message(), "Offset resulted in a single point region");
    assert_eq!(OffsetError::InvalidResult.message(), "Offset produced an invalid result");
}
