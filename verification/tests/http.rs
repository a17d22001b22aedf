use homelab_s3::http::{
    build_request, build_response, parse_head, parse_response_head, parse_target, Method,
    ParseError, ResponseHead,
};

#[test]
fn parse_put_with_content_length() {
    let head = "PUT /photos/cat.jpg HTTP/1.1\r\nHost: x\r\nContent-Length: 42\r\n\r\n";
    let got = parse_head(head).unwrap();
    assert_eq!(got.method, Method::Put);
    assert_eq!(got.path, "/photos/cat.jpg");
    assert_eq!(got.content_length, 42);
}

#[test]
fn parse_get_without_body_defaults_zero() {
    let head = "GET /photos/cat.jpg HTTP/1.1\r\nHost: x\r\n\r\n";
    let got = parse_head(head).unwrap();
    assert_eq!(got.method, Method::Get);
    assert_eq!(got.content_length, 0);
}

#[test]
fn content_length_header_is_case_insensitive() {
    let head = "PUT /b/k HTTP/1.1\r\ncOnTeNt-LeNgTh:  7 \r\n\r\n";
    assert_eq!(parse_head(head).unwrap().content_length, 7);
}

#[test]
fn delete_is_supported() {
    let head = "DELETE /b/k HTTP/1.1\r\n\r\n";
    assert_eq!(parse_head(head).unwrap().method, Method::Delete);
}

#[test]
fn unsupported_method_is_rejected() {
    let head = "POST /b/k HTTP/1.1\r\n\r\n";
    assert_eq!(
        parse_head(head),
        Err(ParseError::UnsupportedMethod("POST".to_string()))
    );
}

#[test]
fn malformed_request_line_is_rejected() {
    assert_eq!(parse_head("GET_ONLY\r\n\r\n"), Err(ParseError::MalformedRequestLine));
}

#[test]
fn non_numeric_content_length_is_rejected() {
    let head = "PUT /b/k HTTP/1.1\r\nContent-Length: abc\r\n\r\n";
    assert_eq!(parse_head(head), Err(ParseError::InvalidContentLength));
}

#[test]
fn target_splits_bucket_and_key() {
    let t = parse_target("/photos/cat.jpg").unwrap();
    assert_eq!(t.bucket, "photos");
    assert_eq!(t.key, "cat.jpg");
}

#[test]
fn target_keeps_slashes_in_key() {
    let t = parse_target("/photos/2026/07/cat.jpg").unwrap();
    assert_eq!(t.bucket, "photos");
    assert_eq!(t.key, "2026/07/cat.jpg");
}

#[test]
fn target_rejects_root_and_bucket_only() {
    assert_eq!(parse_target("/"), None);
    assert_eq!(parse_target("/photos"), None);
    assert_eq!(parse_target("/photos/"), None);
}

#[test]
fn target_rejects_path_traversal() {
    assert_eq!(parse_target("/b/../etc/passwd"), None);
    assert_eq!(parse_target("/b/a/../../x"), None);
    assert_eq!(parse_target("/b/./x"), None);
}

#[test]
fn target_rejects_nul_and_control_chars() {
    assert_eq!(parse_target("/b/a\0b"), None);
    assert_eq!(parse_target("/b\0/k"), None);
    assert_eq!(parse_target("/b/a\nb"), None);
}

#[test]
fn duplicate_content_length_is_rejected() {
    let head = "PUT /b/k HTTP/1.1\r\nContent-Length: 3\r\nContent-Length: 5\r\n\r\n";
    assert_eq!(parse_head(head), Err(ParseError::ConflictingContentLength));
}

#[test]
fn transfer_encoding_is_rejected() {
    let head = "PUT /b/k HTTP/1.1\r\nTransfer-Encoding: chunked\r\n\r\n";
    assert_eq!(parse_head(head), Err(ParseError::UnsupportedTransferEncoding));
}

#[test]
fn lf_only_line_endings_are_accepted() {
    let head = "GET /b/k HTTP/1.1\nContent-Length: 4\n\n";
    let got = parse_head(head).unwrap();
    assert_eq!(got.method, Method::Get);
    assert_eq!(got.content_length, 4);
}

#[test]
fn response_has_status_line_and_body() {
    let bytes = build_response(200, b"hi");
    let text = String::from_utf8(bytes).unwrap();
    assert!(text.starts_with("HTTP/1.1 200 OK\r\n"));
    assert!(text.contains("Content-Length: 2\r\n"));
    assert!(text.ends_with("\r\n\r\nhi"));
}

#[test]
fn response_204_has_empty_body() {
    let bytes = build_response(204, b"");
    let text = String::from_utf8(bytes).unwrap();
    assert!(text.starts_with("HTTP/1.1 204 No Content\r\n"));
    assert!(text.contains("Content-Length: 0\r\n"));
}

#[test]
fn response_bytes_are_exact() {
    assert_eq!(
        build_response(404, b"not found"),
        b"HTTP/1.1 404 Not Found\r\nContent-Length: 9\r\nConnection: close\r\n\r\nnot found".to_vec()
    );
    let long = build_response(200, &vec![7u8; 1203]);
    assert!(long.starts_with(b"HTTP/1.1 200 OK\r\nContent-Length: 1203\r\n"));
    assert!(long.ends_with(&[7u8; 1203]));
}

#[test]
fn every_status_has_its_phrase() {
    let phrases = vec![
        (200, "OK"),
        (204, "No Content"),
        (400, "Bad Request"),
        (404, "Not Found"),
        (413, "Payload Too Large"),
        (500, "Internal Server Error"),
        (501, "Not Implemented"),
        (418, "Status"),
        (0, "Status"),
        (65535, "Status"),
    ];
    for (status, phrase) in phrases {
        let text = String::from_utf8(build_response(status, b"")).unwrap();
        assert!(text.starts_with(&format!("HTTP/1.1 {status} {phrase}\r\n")));
    }
}

#[test]
fn request_is_read_as_it_was_built() {
    for method in [Method::Put, Method::Get, Method::Delete] {
        let bytes = build_request(method, "/b/k\u{e9}y", b"12345");
        let text = String::from_utf8(bytes).unwrap();
        let got = parse_head(&text).unwrap();
        assert_eq!(got.method, method);
        assert_eq!(got.path, "/b/k\u{e9}y");
        assert_eq!(got.content_length, 5);
    }
    assert_eq!(
        build_request(Method::Put, "/b/k", b"v"),
        b"PUT /b/k HTTP/1.1\r\nContent-Length: 1\r\nConnection: close\r\n\r\nv".to_vec()
    );
}

#[test]
fn response_is_read_as_it_was_built() {
    let text = String::from_utf8(build_response(413, b"payload too large")).unwrap();
    assert_eq!(
        parse_response_head(&text),
        Ok(ResponseHead { status: 413, content_length: 17 })
    );
}

#[test]
fn bad_status_lines_are_rejected() {
    let malformed = Err(ParseError::MalformedRequestLine);
    assert_eq!(parse_response_head("HTTP/1.1\r\n"), malformed);
    assert_eq!(parse_response_head("HTTP/1.1 abc OK\r\n"), malformed);
    assert_eq!(parse_response_head("HTTP/1.1 65536 OK\r\n"), malformed);
    assert_eq!(
        parse_response_head("HTTP/1.1 200\r\nContent-Length: x\r\n"),
        Err(ParseError::InvalidContentLength)
    );
    assert_eq!(
        parse_response_head("HTTP/1.1 200\r\n"),
        Ok(ResponseHead { status: 200, content_length: 0 })
    );
}

#[test]
fn head_may_lack_its_terminator() {
    let bare = "PUT /b/k HTTP/1.1\r\nContent-Length: 3";
    let expected = parse_head(bare).unwrap();
    assert_eq!(expected.content_length, 3);
    for tail in ["\r\n", "\r\n\r\n", "\r\n\r\nContent-Length: 9\r\n", "\n\nTransfer-Encoding: x"] {
        assert_eq!(parse_head(&format!("{bare}{tail}")), Ok(expected.clone()));
    }
}

#[test]
fn head_may_end_in_a_lone_carriage_return() {
    for head in ["PUT /b/k HTTP/1.1\r", "PUT /b/k x\nContent-Length: 3\r", "GET / x\n\r", "A B\r"] {
        assert_eq!(parse_head(&format!("{head}\r\n\r\nContent-Length: x")), parse_head(head));
    }
    // A carriage return that stands for the version alone.
    assert_eq!(parse_head("GET /b/k \r"), Err(ParseError::MalformedRequestLine));
    assert!(parse_head("GET /b/k \r\r\n\r\n").is_ok());
}

#[test]
fn first_fault_decides() {
    let start = "PUT /b/k HTTP/1.1\r\n";
    assert_eq!(
        parse_head(&format!("{start}Content-Length: 1\r\nContent-Length: x\r\n\r\n")),
        Err(ParseError::InvalidContentLength)
    );
    assert_eq!(
        parse_head(&format!("{start}Content-Length: 1\r\nContent-Length: 1\r\nTransfer-Encoding: x\r\n")),
        Err(ParseError::ConflictingContentLength)
    );
    assert_eq!(
        parse_head(&format!("{start}transfer-encoding: x\r\nContent-Length: x\r\n")),
        Err(ParseError::UnsupportedTransferEncoding)
    );
    assert_eq!(
        parse_head("POST /b/k HTTP/1.1\r\nContent-Length: x\r\n"),
        Err(ParseError::UnsupportedMethod("POST".to_string()))
    );
}

#[test]
fn content_length_takes_what_a_number_can_be() {
    let length = |value: &str| {
        parse_head(&format!("PUT /b/k HTTP/1.1\r\nContent-Length:{value}\r\n\r\n"))
            .map(|head| head.content_length)
    };
    assert_eq!(length("+12"), Ok(12));
    assert_eq!(length("007"), Ok(7));
    assert_eq!(length(&format!("\t{}\u{3000}", usize::MAX)), Ok(usize::MAX));
    for bad in ["", "+", "-1", "1 2", "++1", "18446744073709551616", "0x10"] {
        assert_eq!(length(bad), Err(ParseError::InvalidContentLength));
    }
}

#[test]
fn request_line_is_method_path_and_version() {
    let malformed = Err(ParseError::MalformedRequestLine);
    for line in [
        "",
        "GET",
        "GET /b/k",
        "GET /b/k HTTP/1.1 extra",
        "GET /b/a b HTTP/1.1",
        "GET /b/k ",
        "GET  /b/k",
        "GET  /b/k HTTP/1.1",
        "GET /b/k  HTTP/1.1",
        "GET /b/k HTTP/1.1 ",
        " GET /b/k HTTP/1.1",
        " /b/k HTTP/1.1",
        "  ",
    ] {
        assert_eq!(parse_head(line), malformed);
        assert_eq!(parse_head(&format!("{line}\r\n\r\n")), malformed);
    }
    assert_eq!(parse_head("GET x y").unwrap().path, "x");
    assert_eq!(
        parse_head("get /b/k HTTP/1.1"),
        Err(ParseError::UnsupportedMethod("get".to_string()))
    );
}

#[test]
fn targets_at_the_edges() {
    assert_eq!(parse_target(""), None);
    assert_eq!(parse_target("b/k"), None);
    assert_eq!(parse_target("//k"), None);
    assert_eq!(parse_target("/b//k"), None);
    assert_eq!(parse_target("/b/k/"), None);
    assert_eq!(parse_target("/b/.."), None);
    assert_eq!(parse_target("/b/\u{7f}"), None);
    assert_eq!(parse_target("/b/\u{9f}"), None);
    assert_eq!(parse_target("/../etc/passwd"), None);
    assert_eq!(parse_target("/./k"), None);
    assert_eq!(parse_target("/../..."), None);
    let t = parse_target("/.../...").unwrap();
    assert_eq!((t.bucket.as_str(), t.key.as_str()), ("...", "..."));
    let t = parse_target("/.b/..k").unwrap();
    assert_eq!((t.bucket.as_str(), t.key.as_str()), (".b", "..k"));
    let t = parse_target("/\u{30d0}/\u{30ad}\u{30fc}").unwrap();
    assert_eq!((t.bucket.as_str(), t.key.as_str()), ("\u{30d0}", "\u{30ad}\u{30fc}"));
}

#[test]
fn errors_have_messages() {
    assert_eq!(ParseError::MalformedRequestLine.to_string(), "malformed request line");
    assert_eq!(
        ParseError::UnsupportedMethod("POST".to_string()).to_string(),
        "unsupported method: POST"
    );
    assert_eq!(ParseError::InvalidContentLength.to_string(), "invalid content-length");
    assert_eq!(
        ParseError::ConflictingContentLength.to_string(),
        "conflicting content-length"
    );
    assert_eq!(
        ParseError::UnsupportedTransferEncoding.to_string(),
        "unsupported transfer-encoding"
    );
}

#[test]
fn line_feeds_read_like_crlf() {
    for head in [
        "PUT /b/k HTTP/1.1\nContent-Length: 4",
        "PUT /b/k HTTP/1.1\nContent-Length: 4\n",
        "PUT /b/k HTTP/1.1\nContent-Length: 4\n\nContent-Length: 5",
        "PUT /b/k HTTP/1.1\nX: a\rb\nContent-Length: 4",
        "PUT /b/k\n",
    ] {
        assert_eq!(parse_head(&head.replace('\n', "\r\n")), parse_head(head));
    }
}
