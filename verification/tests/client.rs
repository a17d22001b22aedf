use homelab_s3::client::{
    expect_success, find_header_end, parse_answer, ClientError, S3Client, MAX_RESPONSE,
};
use homelab_s3::http::{build_response, ParseError};
use homelab_s3::server::{begin, step, Action, Event, MAX_BODY};
use homelab_s3::store::{replay_log, Append};
use homelab_s3::ObjectStore;

/// A server with its log in memory.
struct MemServer {
    log: Vec<u8>,
    store: ObjectStore,
}

impl MemServer {
    fn new() -> MemServer {
        MemServer { log: vec![], store: ObjectStore::open(replay_log(&[])) }
    }

    fn write(&mut self, append: Append) {
        assert_eq!(append.offset() as usize, self.log.len());
        self.log.extend_from_slice(append.record());
        self.store.commit(append);
    }

    /// Takes the bytes of one connection and gives the bytes of the answer.
    fn serve(&mut self, request: &[u8]) -> Vec<u8> {
        let mut at = 0;
        let (mut session, mut action) = begin();
        loop {
            let event = match action {
                Action::ReadLine { limit } => {
                    let mut line = Vec::new();
                    while at < request.len() && line.len() < limit as usize {
                        line.push(request[at]);
                        at += 1;
                        if line.ends_with(b"\n") {
                            break;
                        }
                    }
                    if line.is_empty() {
                        Event::EndOfInput
                    } else {
                        Event::Line(String::from_utf8(line).unwrap())
                    }
                }
                Action::ReadBody(n) => {
                    let body = request[at..at + n].to_vec();
                    at += n;
                    Event::Body(body)
                }
                Action::Put { bucket, key, value } => {
                    let append = self.store.put(&bucket, &key, &value).unwrap();
                    self.write(append);
                    Event::Stored
                }
                Action::Get { bucket, key } => match self.store.get(&bucket, &key) {
                    Some(loc) => {
                        let from = loc.offset as usize;
                        Event::Found(self.log[from..from + loc.size as usize].to_vec())
                    }
                    None => Event::Missing,
                },
                Action::Delete { bucket, key } => {
                    let append = self.store.delete(&bucket, &key).unwrap();
                    self.write(append);
                    Event::Deleted
                }
                Action::Respond { status, body } => return build_response(status, &body),
                Action::Close => return vec![],
            };
            let (next_session, next_action) = step(session, event);
            session = next_session;
            action = next_action;
        }
    }
}

#[test]
fn put_get_delete_roundtrip_over_http() {
    let mut server = MemServer::new();
    let client = S3Client::new("127.0.0.1:8080".to_string());

    let call = client.put("bench", "k1", b"hello-zunda");
    assert_eq!(call.addr, "127.0.0.1:8080");
    S3Client::put_answer(&server.serve(&call.request)).unwrap();
    let answer = server.serve(&client.get("bench", "k1").request);
    assert_eq!(
        S3Client::get_answer(&answer).unwrap().as_deref(),
        Some(&b"hello-zunda"[..])
    );

    let answer = server.serve(&client.delete("bench", "k1").request);
    S3Client::delete_answer(&answer).unwrap();
    let answer = server.serve(&client.get("bench", "k1").request);
    assert_eq!(S3Client::get_answer(&answer).unwrap(), None);
}

#[test]
fn values_may_hold_any_bytes() {
    let mut server = MemServer::new();
    let client = S3Client::new("x".to_string());
    let value: Vec<u8> = (0..=255).chain(*b"\r\n\r\n").collect();
    S3Client::put_answer(&server.serve(&client.put("b", "a/b", &value).request)).unwrap();
    let answer = server.serve(&client.get("b", "a/b").request);
    assert_eq!(S3Client::get_answer(&answer), Ok(Some(value)));
}

#[test]
fn requests_are_exact() {
    let client = S3Client::new("h:1".to_string());
    assert_eq!(
        client.get("b", "k").request,
        b"GET /b/k HTTP/1.1\r\nContent-Length: 0\r\nConnection: close\r\n\r\n".to_vec()
    );
    assert_eq!(
        client.delete("b", "k").request,
        b"DELETE /b/k HTTP/1.1\r\nContent-Length: 0\r\nConnection: close\r\n\r\n".to_vec()
    );
}

#[test]
fn refusals_are_errors() {
    let mut server = MemServer::new();
    let client = S3Client::new("x".to_string());
    let answer = server.serve(&client.put("b", "../etc", b"v").request);
    assert_eq!(S3Client::put_answer(&answer), Err(ClientError::UnexpectedStatus(400)));
    assert_eq!(S3Client::get_answer(&answer), Err(ClientError::UnexpectedStatus(400)));
    let answer = server.serve(b"POST /b/k HTTP/1.1\r\n\r\n");
    assert_eq!(S3Client::delete_answer(&answer), Err(ClientError::UnexpectedStatus(501)));
    assert_eq!(server.log.len(), 0);
}

#[test]
fn only_the_two_hundreds_are_success() {
    assert_eq!(expect_success(200), Ok(()));
    assert_eq!(expect_success(299), Ok(()));
    assert_eq!(expect_success(199), Err(ClientError::UnexpectedStatus(199)));
    assert_eq!(expect_success(300), Err(ClientError::UnexpectedStatus(300)));
    assert_eq!(S3Client::get_answer(&build_response(404, b"x")), Ok(None));
    assert_eq!(
        S3Client::get_answer(&build_response(204, b"")),
        Err(ClientError::UnexpectedStatus(204))
    );
}

#[test]
fn header_end_is_the_first_one() {
    assert_eq!(find_header_end(b""), None);
    assert_eq!(find_header_end(b"\r\n\r"), None);
    assert_eq!(find_header_end(b"\r\n\r\n"), Some(4));
    assert_eq!(find_header_end(b"ab\r\n\r\r\n\r\ncd\r\n\r\n"), Some(9));
    assert_eq!(find_header_end(b"a\n\nb\r\rc"), None);
}

#[test]
fn bad_answers_are_refused() {
    assert_eq!(parse_answer(b"HTTP/1.1 200 OK\r\n"), Err(ClientError::NoHeaderTerminator));
    assert_eq!(parse_answer(b""), Err(ClientError::NoHeaderTerminator));
    assert_eq!(
        parse_answer(b"HTTP/1.1 200 \xff\r\n\r\n"),
        Err(ClientError::NonUtf8Head)
    );
    assert_eq!(
        parse_answer(b"HTTP/1.1\r\n\r\n"),
        Err(ClientError::BadHead(ParseError::MalformedRequestLine))
    );
    let whole = build_response(200, b"12345");
    assert_eq!(parse_answer(&whole), Ok((200, b"12345".to_vec())));
    assert_eq!(
        parse_answer(&whole[..whole.len() - 2]),
        Err(ClientError::Truncated { available: 3, expected: 5 })
    );
    let mut longer = whole.clone();
    longer.extend_from_slice(b"more");
    assert_eq!(parse_answer(&longer), Ok((200, b"12345".to_vec())));
}

#[test]
fn client_errors_have_messages() {
    assert_eq!(ClientError::NoHeaderTerminator.to_string(), "no header terminator");
    assert_eq!(ClientError::NonUtf8Head.to_string(), "non-utf8 response head");
    assert_eq!(
        ClientError::BadHead(ParseError::InvalidContentLength).to_string(),
        "invalid content-length"
    );
    assert_eq!(
        ClientError::Truncated { available: 3, expected: 50 }.to_string(),
        "body truncated: got 3, expected 50"
    );
    assert_eq!(
        ClientError::UnexpectedStatus(503).to_string(),
        "unexpected HTTP status: 503"
    );
}

#[test]
fn largest_answer_is_received_whole() {
    let value = vec![1u8; MAX_BODY];
    assert!(build_response(500, &value).len() as u64 <= MAX_RESPONSE);
}

#[test]
fn paths_do_not_collide() {
    let mut server = MemServer::new();
    let client = S3Client::new("x".to_string());
    server.serve(&client.put("a", "b/c", b"1").request);
    server.serve(&client.put("a", "b", b"2").request);
    server.serve(&client.put("ab", "c", b"3").request);
    let get = |server: &mut MemServer, bucket: &str, key: &str| {
        S3Client::get_answer(&server.serve(&client.get(bucket, key).request))
    };
    assert_eq!(get(&mut server, "a", "b/c"), Ok(Some(b"1".to_vec())));
    assert_eq!(get(&mut server, "a", "b"), Ok(Some(b"2".to_vec())));
    assert_eq!(get(&mut server, "ab", "c"), Ok(Some(b"3".to_vec())));
    server.serve(&client.delete("a", "b").request);
    assert_eq!(get(&mut server, "a", "b/c"), Ok(Some(b"1".to_vec())));
    assert_eq!(get(&mut server, "a", "b"), Ok(None));
}

#[test]
fn names_with_spaces_are_refused() {
    let mut server = MemServer::new();
    let client = S3Client::new("x".to_string());
    for (bucket, key) in [("b", "a b"), ("b", " a"), ("b", "a "), ("a b", "k"), ("b", "x/ y")] {
        let answer = server.serve(&client.put(bucket, key, b"v").request);
        assert_eq!(S3Client::put_answer(&answer), Err(ClientError::UnexpectedStatus(400)));
    }
    assert_eq!(server.log.len(), 0);
    let answer = server.serve(&client.get("b", "a").request);
    assert_eq!(S3Client::get_answer(&answer), Ok(None));
}

#[test]
fn relative_buckets_are_refused() {
    let mut server = MemServer::new();
    let client = S3Client::new("x".to_string());
    for bucket in [".", "..", ""] {
        let answer = server.serve(&client.put(bucket, "etc/passwd", b"v").request);
        assert_eq!(S3Client::put_answer(&answer), Err(ClientError::UnexpectedStatus(400)));
    }
    assert_eq!(server.log.len(), 0);
}
