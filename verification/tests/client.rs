use flounder::client::{address, find_clrf, request_line, split_response};

#[test]
fn find_clrf_finds_the_first() {
    assert_eq!(find_clrf(b"20 text/gemini\r\nbody\r\n"), Some(14));
    assert_eq!(find_clrf(b"\r\n"), Some(0));
    assert_eq!(find_clrf(b"a\r\r\n"), Some(2));
}

#[test]
fn find_clrf_finds_none() {
    assert_eq!(find_clrf(b""), None);
    assert_eq!(find_clrf(b"\r"), None);
    assert_eq!(find_clrf(b"\n\r"), None);
    assert_eq!(find_clrf(b"no line end"), None);
}

#[test]
fn split_response_parts_header_and_content() {
    let (header, content) = split_response(b"20 text/gemini\r\n# hi\r\n").unwrap();
    assert_eq!(header, b"20 text/gemini\r\n");
    assert_eq!(content, b"# hi\r\n");
    let (header, content) = split_response(b"51 not found\r\n").unwrap();
    assert_eq!(header, b"51 not found\r\n");
    assert_eq!(content, b"");
    assert!(split_response(b"garbage").is_none());
}

#[test]
fn address_has_the_port_of_gemini_where_none_is_given() {
    assert_eq!(address("example.org", None), "example.org:1965");
    assert_eq!(address("example.org", Some(300)), "example.org:300");
    assert_eq!(address("example.org", Some(0)), "example.org:0");
}

#[test]
fn request_line_ends_the_url_with_a_line_ending() {
    assert_eq!(request_line("gemini://example.org/"), "gemini://example.org/\r\n");
}
