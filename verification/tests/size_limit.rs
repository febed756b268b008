use multra::SizeLimit;

#[test]
fn default_limits_are_unbounded() {
    let limit = SizeLimit::new();
    assert_eq!(limit.extract_size_limit_for(None), u64::MAX);
    assert_eq!(limit.extract_size_limit_for(Some("f")), u64::MAX);
}

#[test]
fn field_limits_override_the_per_field_limit() {
    let limit = SizeLimit::new()
        .whole_stream(15 * 1024 * 1024)
        .per_field(10 * 1024 * 1024)
        .for_field("my_text_field", 30 * 1024);
    assert_eq!(limit.extract_size_limit_for(Some("my_text_field")), 30 * 1024);
    assert_eq!(limit.extract_size_limit_for(Some("other")), 10 * 1024 * 1024);
    assert_eq!(limit.extract_size_limit_for(None), 10 * 1024 * 1024);

    let limit = limit.for_field("my_text_field", 7).per_field(1).headers(2);
    assert_eq!(limit.extract_size_limit_for(Some("my_text_field")), 7);
    assert_eq!(limit.extract_size_limit_for(Some("other")), 1);
}
