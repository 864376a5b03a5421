use kairos::config::parse_endpoint_list;

#[test]
fn endpoint_list_default_form() {
    assert_eq!(
        parse_endpoint_list("http://0.0.0.0:8000,http://0.0.0.0:8001"),
        vec!["http://0.0.0.0:8000", "http://0.0.0.0:8001"]
    );
}

#[test]
fn endpoint_list_trims_and_drops_empty_entries() {
    assert_eq!(
        parse_endpoint_list(" http://a:1 ,,\thttp://b:2\n, ,"),
        vec!["http://a:1", "http://b:2"]
    );
}

#[test]
fn endpoint_list_empty_text() {
    assert!(parse_endpoint_list("").is_empty());
    assert!(parse_endpoint_list(" , ").is_empty());
}
