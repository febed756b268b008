use multra::{Error, HeaderError};

#[test]
fn equality_uses_variant_data_instead_of_display_text() {
    assert_ne!(
        Error::UnknownField { field_name: None },
        Error::UnknownField {
            field_name: Some("<unknown>".to_owned())
        }
    );
    assert_ne!(
        Error::ReadHeaderFailed(HeaderError::HeaderName),
        Error::ReadHeaderFailed(HeaderError::HeaderValue)
    );
}

#[test]
fn debug_output_preserves_variant_details() {
    let error = Error::ReadHeaderFailed(HeaderError::HeaderName);
    assert_eq!(
        format!("{error:?}"),
        "ReadHeaderFailed(HeaderName)".to_owned()
    );
}

#[test]
fn errors_compare_by_variant_and_data() {
    assert_eq!(Error::IncompleteStream, Error::IncompleteStream);
    assert_ne!(Error::IncompleteStream, Error::IncompleteHeaders);
    assert_eq!(
        Error::DecodeHeaderValue { value: vec![1, 2], cause: "c".to_owned() },
        Error::DecodeHeaderValue { value: vec![1, 2], cause: "c".to_owned() }
    );
    assert_ne!(
        Error::DecodeHeaderValue { value: vec![1, 2], cause: "c".to_owned() },
        Error::DecodeHeaderValue { value: vec![1, 3], cause: "c".to_owned() }
    );
    assert_ne!(
        Error::FieldSizeExceeded { limit: 1, field_name: None },
        Error::FieldSizeExceeded { limit: 2, field_name: None }
    );
    assert_eq!(
        Error::StreamSizeExceeded { limit: 3 },
        Error::StreamSizeExceeded { limit: 3 }
    );
    assert_ne!(
        Error::StreamSizeExceeded { limit: 3 },
        Error::PreambleSizeExceeded { limit: 3 }
    );
}
