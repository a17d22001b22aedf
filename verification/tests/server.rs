use homelab_s3::server::{begin, step, Action, Event, Session, MAX_BODY, MAX_HEADER};

/// The state and action after a head of the given lines.
fn after_lines(lines: &[&str]) -> (Session, Action) {
    let (mut session, mut action) = begin();
    for line in lines {
        assert!(matches!(action, Action::ReadLine { .. }));
        let next = step(session, Event::Line(line.to_string()));
        session = next.0;
        action = next.1;
    }
    (session, action)
}

fn assert_answer(action: Action, expected_status: u16, expected_body: &[u8]) {
    match action {
        Action::Respond { status, body } => {
            assert_eq!(status, expected_status);
            assert_eq!(body, expected_body);
        }
        _ => panic!("no answer"),
    }
}

#[test]
fn silent_peer_is_let_go() {
    let (session, action) = begin();
    assert!(matches!(action, Action::ReadLine { limit } if limit == MAX_HEADER));
    let (session, action) = step(session, Event::EndOfInput);
    assert!(matches!(session, Session::Closed));
    assert!(matches!(action, Action::Close));
}

#[test]
fn unfinished_head_is_a_bad_request() {
    let (session, _) = after_lines(&["GET /b/k HTTP/1.1\r\n"]);
    let (_, action) = step(session, Event::EndOfInput);
    assert_answer(action, 400, b"header too large or incomplete");
}

#[test]
fn head_is_limited() {
    let line = format!("X: {}\n", "a".repeat(996));
    let (mut session, _) = after_lines(&["GET /b/k HTTP/1.1\r\n"]);
    let mut left = MAX_HEADER - 19;
    while left >= 1000 {
        let (next, action) = step(session, Event::Line(line.clone()));
        left -= 1000;
        assert!(matches!(action, Action::ReadLine { limit } if limit == left));
        session = next;
    }
    let rest = "b".repeat(left as usize);
    let (session, action) = step(session, Event::Line(rest));
    assert!(matches!(action, Action::ReadLine { limit: 0 }));
    let (_, action) = step(session, Event::EndOfInput);
    assert_answer(action, 400, b"header too large or incomplete");
}

#[test]
fn budget_counts_bytes() {
    let (_, action) = after_lines(&["\u{3042}\n"]);
    assert!(matches!(action, Action::ReadLine { limit } if limit == MAX_HEADER - 4));
}

#[test]
fn heads_that_cannot_be_served_are_answered() {
    let (_, action) = after_lines(&["POST /b/k HTTP/1.1\r\n", "\r\n"]);
    assert_answer(action, 501, b"not implemented");
    let (_, action) = after_lines(&["PUT /b/k HTTP/1.1\r\n", "Transfer-Encoding: chunked\r\n", "\n"]);
    assert_answer(action, 501, b"not implemented");
    let (_, action) = after_lines(&["GET\r\n", "\r\n"]);
    assert_answer(action, 400, b"bad request");
    let (_, action) = after_lines(&["\r\n"]);
    assert_answer(action, 400, b"bad request");
    let (_, action) = after_lines(&["PUT /b/k HTTP/1.1\r\n", "Content-Length: x\r\n", "\r\n"]);
    assert_answer(action, 400, b"bad request");
    let (_, action) = after_lines(&[
        "PUT /b/k HTTP/1.1\r\n",
        "Content-Length: 1\r\n",
        "Content-Length: 1\r\n",
        "\r\n",
    ]);
    assert_answer(action, 400, b"bad request");
}

#[test]
fn body_is_limited() {
    let head = |n: usize| format!("Content-Length: {n}\r\n");
    let (_, action) = after_lines(&["PUT /b/k HTTP/1.1\r\n", &head(MAX_BODY), "\r\n"]);
    assert!(matches!(action, Action::ReadBody(n) if n == MAX_BODY));
    let (_, action) = after_lines(&["PUT /b/k HTTP/1.1\r\n", &head(MAX_BODY + 1), "\r\n"]);
    assert_answer(action, 413, b"payload too large");
}

#[test]
fn bad_paths_are_answered_after_the_body() {
    let (session, action) = after_lines(&["PUT /b HTTP/1.1\r\n", "Content-Length: 2\r\n", "\r\n"]);
    assert!(matches!(action, Action::ReadBody(2)));
    let (session, action) = step(session, Event::Body(b"hi".to_vec()));
    assert!(matches!(session, Session::Closed));
    assert_answer(action, 400, b"path must be /{bucket}/{key}");
}

#[test]
fn put_is_stored_and_answered() {
    let (session, _) = after_lines(&["PUT /b/a/k HTTP/1.1\n", "content-length: 2\n", "\n"]);
    let (session, action) = step(session, Event::Body(b"hi".to_vec()));
    match action {
        Action::Put { bucket, key, value } => {
            assert_eq!((bucket.as_str(), key.as_str()), ("b", "a/k"));
            assert_eq!(value, b"hi");
        }
        _ => panic!("no put"),
    }
    let (_, action) = step(session, Event::Stored);
    assert_answer(action, 200, b"");
}

#[test]
fn get_is_answered_with_the_value_or_404() {
    let (session, _) = after_lines(&["GET /b/k HTTP/1.1\r\n", "\r\n"]);
    let (session, action) = step(session, Event::Body(vec![]));
    assert!(matches!(action, Action::Get { .. }));
    let (_, action) = step(session, Event::Found(b"v".to_vec()));
    assert_answer(action, 200, b"v");

    let (session, _) = after_lines(&["GET /b/k HTTP/1.1\r\n", "\r\n"]);
    let (session, _) = step(session, Event::Body(vec![]));
    let (_, action) = step(session, Event::Missing);
    assert_answer(action, 404, b"not found");
}

#[test]
fn delete_is_answered_without_content() {
    let (session, _) = after_lines(&["DELETE /b/k HTTP/1.1\r\n", "\r\n"]);
    let (session, action) = step(session, Event::Body(vec![]));
    assert!(matches!(action, Action::Delete { .. }));
    let (_, action) = step(session, Event::Deleted);
    assert_answer(action, 204, b"");
}
