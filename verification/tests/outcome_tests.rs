use playlist_store::outcome::{DateError, PathError, StoreError};

#[test]
fn date_errors_surface_as_malformed() {
    assert_eq!(
        StoreError::from_date_error(DateError::Malformed),
        StoreError::Malformed
    );
}

#[test]
fn path_errors_surface_as_internal() {
    // Resolution failures during generation are configuration errors,
    // reported as an opaque internal failure.
    assert_eq!(
        StoreError::from_path_error(PathError::OutsideRoot),
        StoreError::Internal
    );
}
