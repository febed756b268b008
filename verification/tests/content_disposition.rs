use multra::ContentDispositionAttr;

#[test]
fn test_content_disposition_name_only() {
    let val = br#"form-data; name="my_field""#;
    let name = ContentDispositionAttr::Name.extract_from(val);
    let filename = ContentDispositionAttr::FileName.extract_from(val);
    assert_eq!(name.unwrap(), "my_field");
    assert!(filename.is_none());

    let val = br#"form-data; name=my_field  "#;
    let name = ContentDispositionAttr::Name.extract_from(val);
    let filename = ContentDispositionAttr::FileName.extract_from(val);
    assert_eq!(name.unwrap(), "my_field");
    assert!(filename.is_none());

    let val = br#"form-data; name  =  my_field  "#;
    let name = ContentDispositionAttr::Name.extract_from(val);
    let filename = ContentDispositionAttr::FileName.extract_from(val);
    assert_eq!(name.unwrap(), "my_field");
    assert!(filename.is_none());

    let val = br#"form-data; name  =  "#;
    let name = ContentDispositionAttr::Name.extract_from(val);
    let filename = ContentDispositionAttr::FileName.extract_from(val);
    assert_eq!(name.unwrap(), "");
    assert!(filename.is_none());
}

#[test]
fn test_content_disposition_extraction() {
    let val = br#"form-data; name="my_field"; filename="file abc.txt""#;
    let name = ContentDispositionAttr::Name.extract_from(val);
    let filename = ContentDispositionAttr::FileName.extract_from(val);
    assert_eq!(name.unwrap(), "my_field");
    assert_eq!(filename.unwrap(), "file abc.txt");

    let val = "form-data; name=\"你好\"; filename=\"file abc.txt\"".as_bytes();
    let name = ContentDispositionAttr::Name.extract_from(val);
    let filename = ContentDispositionAttr::FileName.extract_from(val);
    assert_eq!(name.unwrap(), "你好");
    assert_eq!(filename.unwrap(), "file abc.txt");

    let val = "form-data; name=\"কখগ\"; filename=\"你好.txt\"".as_bytes();
    let name = ContentDispositionAttr::Name.extract_from(val);
    let filename = ContentDispositionAttr::FileName.extract_from(val);
    assert_eq!(name.unwrap(), "কখগ");
    assert_eq!(filename.unwrap(), "你好.txt");
}

#[test]
fn test_content_disposition_file_name_only() {
    // These are technically malformed, as RFC 7578 says the `name`
    // parameter _must_ be included. But okay.
    let val = br#"form-data; filename="file-name.txt""#;
    let name = ContentDispositionAttr::Name.extract_from(val);
    let filename = ContentDispositionAttr::FileName.extract_from(val);
    assert_eq!(filename.unwrap(), "file-name.txt");
    assert!(name.is_none());

    let val = "form-data; filename=\"কখগ-你好.txt\"".as_bytes();
    let name = ContentDispositionAttr::Name.extract_from(val);
    let filename = ContentDispositionAttr::FileName.extract_from(val);
    assert_eq!(filename.unwrap(), "কখগ-你好.txt");
    assert!(name.is_none());
}

#[test]
fn test_content_distribution_misordered_fields() {
    let val = br#"form-data; filename=file-name.txt; name=file"#;
    let name = ContentDispositionAttr::Name.extract_from(val);
    let filename = ContentDispositionAttr::FileName.extract_from(val);
    assert_eq!(filename.unwrap(), "file-name.txt");
    assert_eq!(name.unwrap(), "file");

    let val = br#"form-data; filename="file-name.txt"; name="file""#;
    let name = ContentDispositionAttr::Name.extract_from(val);
    let filename = ContentDispositionAttr::FileName.extract_from(val);
    assert_eq!(filename.unwrap(), "file-name.txt");
    assert_eq!(name.unwrap(), "file");

    let val = "form-data; filename=\"你好.txt\"; name=\"কখগ\"".as_bytes();
    let name = ContentDispositionAttr::Name.extract_from(val);
    let filename = ContentDispositionAttr::FileName.extract_from(val);
    assert_eq!(name.unwrap(), "কখগ");
    assert_eq!(filename.unwrap(), "你好.txt");
}

#[test]
fn test_content_disposition_name_unquoted() {
    let val = br#"form-data; name=my_field"#;
    let name = ContentDispositionAttr::Name.extract_from(val);
    let filename = ContentDispositionAttr::FileName.extract_from(val);
    assert_eq!(name.unwrap(), "my_field");
    assert!(filename.is_none());

    let val = br#"form-data; name=my_field; filename=file-name.txt"#;
    let name = ContentDispositionAttr::Name.extract_from(val);
    let filename = ContentDispositionAttr::FileName.extract_from(val);
    assert_eq!(name.unwrap(), "my_field");
    assert_eq!(filename.unwrap(), "file-name.txt");
}

#[test]
fn test_content_disposition_name_quoted() {
    let val = br#"form-data; name="my;f;ield""#;
    let name = ContentDispositionAttr::Name.extract_from(val);
    let filename = ContentDispositionAttr::FileName.extract_from(val);
    assert_eq!(name.unwrap(), "my;f;ield");
    assert!(filename.is_none());

    let val = br#"form-data; name=my_field; filename = "file;name.txt""#;
    let name = ContentDispositionAttr::Name.extract_from(val);
    assert_eq!(name.unwrap(), "my_field");
    let filename = ContentDispositionAttr::FileName.extract_from(val);
    assert_eq!(filename.unwrap(), "file;name.txt");

    let val = br#"form-data; name=; filename=filename.txt"#;
    let name = ContentDispositionAttr::Name.extract_from(val);
    let filename = ContentDispositionAttr::FileName.extract_from(val);
    assert_eq!(name.unwrap(), "");
    assert_eq!(filename.unwrap(), "filename.txt");

    let val = br#"form-data; name=";"; filename=";""#;
    let name = ContentDispositionAttr::Name.extract_from(val);
    let filename = ContentDispositionAttr::FileName.extract_from(val);
    assert_eq!(name.unwrap(), ";");
    assert_eq!(filename.unwrap(), ";");
}

#[test]
fn test_content_disposition_name_escaped_quote() {
    let val = br#"form-data; name="my\"field\"name""#;
    let name = ContentDispositionAttr::Name.extract_from(val);
    assert_eq!(name.unwrap(), r#"my"field"name"#);

    let val = br#"form-data; name="myfield\"name""#;
    let name = ContentDispositionAttr::Name.extract_from(val);
    assert_eq!(name.unwrap(), r#"myfield"name"#);
}

#[test]
fn test_content_disposition_case_insensitive_parameters() {
    let val = br#"form-data; NAME="my_field"; FILENAME="file-name.txt""#;
    let name = ContentDispositionAttr::Name.extract_from(val);
    let filename = ContentDispositionAttr::FileName.extract_from(val);
    assert_eq!(name.unwrap(), "my_field");
    assert_eq!(filename.unwrap(), "file-name.txt");
}

#[test]
fn test_content_disposition_percent_decoded_values() {
    let val = br#"form-data; name=my%20field; filename=file%20name.txt"#;
    let name = ContentDispositionAttr::Name.extract_from(val);
    let filename = ContentDispositionAttr::FileName.extract_from(val);
    assert_eq!(name.unwrap(), "my field");
    assert_eq!(filename.unwrap(), "file name.txt");
}

#[test]
fn test_content_disposition_filename_star_preferred() {
    let val = br#"form-data; name="upload"; filename="fallback.txt"; filename*=UTF-8''%E4%BD%A0%E5%A5%BD.txt"#;
    let name = ContentDispositionAttr::Name.extract_from(val);
    let filename = ContentDispositionAttr::FileName.extract_from(val);
    assert_eq!(name.unwrap(), "upload");
    assert_eq!(filename.unwrap(), "你好.txt");
}
