use multra::{
    boundary_from_media_type, is_boundary_char, is_boundary_char_no_space, parse_boundary,
    validate_boundary, Error,
};
use multra::outside::MediaType;

#[test]
fn test_parse_boundary() {
    let content_type = "multipart/form-data; boundary=ABCDEFG";
    assert_eq!(parse_boundary(content_type), Ok("ABCDEFG".to_owned()));

    let content_type = "multipart/form-data; boundary=------ABCDEFG";
    assert_eq!(parse_boundary(content_type), Ok("------ABCDEFG".to_owned()));

    let content_type = "boundary=------ABCDEFG";
    assert!(parse_boundary(content_type).is_err());

    let content_type = "text/plain";
    assert!(parse_boundary(content_type).is_err());

    let content_type = "text/plain; boundary=------ABCDEFG";
    assert!(parse_boundary(content_type).is_err());

    let boundary = "a".repeat(70);
    let content_type = format!("multipart/form-data; boundary={boundary}");
    assert_eq!(parse_boundary(&content_type), Ok(boundary));

    let boundary = "a".repeat(71);
    let content_type = format!("multipart/form-data; boundary={boundary}");
    assert!(matches!(
        parse_boundary(&content_type),
        Err(Error::InvalidBoundary { .. })
    ));

    let content_type = "multipart/form-data; boundary=\"abc@def\"";
    assert!(matches!(
        parse_boundary(content_type),
        Err(Error::InvalidBoundary { .. })
    ));
}

#[test]
fn parse_boundary_errors_by_kind() {
    assert!(matches!(parse_boundary("boundary=x"), Err(Error::DecodeContentType(_))));
    assert_eq!(parse_boundary("text/plain; boundary=x"), Err(Error::NoMultipart));
    assert_eq!(parse_boundary("multipart/mixed; boundary=x"), Err(Error::NoMultipart));
    assert_eq!(parse_boundary("multipart/form-data"), Err(Error::NoBoundary));
    assert_eq!(parse_boundary("Multipart/Form-Data; Boundary=xyz"), Ok("xyz".to_owned()));
}

#[test]
fn boundary_from_parts() {
    let parts = |t: &str, s: &str, b: Option<&str>| MediaType {
        type_: t.to_owned(),
        subtype: s.to_owned(),
        boundary: b.map(|b| b.to_owned()),
    };
    assert_eq!(
        boundary_from_media_type(Ok(parts("multipart", "form-data", Some("xyz")))),
        Ok("xyz".to_owned())
    );
    assert_eq!(
        boundary_from_media_type(Ok(parts("multipart", "mixed", Some("xyz")))),
        Err(Error::NoMultipart)
    );
    assert_eq!(
        boundary_from_media_type(Ok(parts("multipart", "form-data", None))),
        Err(Error::NoBoundary)
    );
    assert_eq!(
        boundary_from_media_type(Ok(parts("multipart", "form-data", Some("a b ")))),
        Err(Error::InvalidBoundary { boundary: "a b ".to_owned() })
    );
    assert_eq!(
        boundary_from_media_type(Err("bad".to_owned())),
        Err(Error::DecodeContentType("bad".to_owned()))
    );
}

#[test]
fn validates_boundaries() {
    assert_eq!(validate_boundary("a b"), Ok(()));
    assert_eq!(validate_boundary("'()+_,-./:=?09AZaz"), Ok(()));
    assert!(validate_boundary("ab ").is_err());
    assert!(validate_boundary("").is_err());
    assert!(validate_boundary("a@b").is_err());
    assert!(validate_boundary(&"x".repeat(70)).is_ok());
    assert_eq!(
        validate_boundary(&"x".repeat(71)),
        Err(Error::InvalidBoundary { boundary: "x".repeat(71) })
    );
    assert!(is_boundary_char(b' '));
    assert!(!is_boundary_char_no_space(b' '));
    assert!(!is_boundary_char(b'@'));
}
