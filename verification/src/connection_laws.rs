//! What a connection does with whatever it is sent: lines, bodies, and the bytes
//! that a client sends.

use vstd::prelude::*;
use vstd::utf8::*;

use crate::client;
use crate::client::ClientErrorView;
use crate::http;
use crate::http::{Method, ParseErrorView, RequestHeadView};
use crate::message_laws;
use crate::server;
use crate::server::{ActionView, EventView, SessionView};
use crate::server_laws;
use crate::store::StoreView;
use crate::store_laws;
use crate::text;

verus! {

// ---------------------------------------------------------------------------
// Step by step
// ---------------------------------------------------------------------------

/// The line that ends a head.
pub open spec fn is_end(line: Seq<char>) -> bool {
    line == seq!['\r', '\n'] || line == seq!['\n']
}

/// The connection answers with a status and a text, and is closed.
pub open spec fn answers(r: (SessionView, ActionView), status: u16, text: Seq<char>) -> bool {
    r == (SessionView::Closed, ActionView::Respond { status, body: encode_utf8(text) })
}

/// Lines in a row.
pub open spec fn together(lines: Seq<Seq<char>>) -> Seq<char>
    decreases lines.len(),
{
    if lines.len() == 0 {
        Seq::empty()
    } else {
        together(lines.drop_last()) + lines.last()
    }
}

/// The arrival of lines.
pub open spec fn arrivals(lines: Seq<Seq<char>>) -> Seq<EventView> {
    lines.map_values(|line: Seq<char>| EventView::Line(line))
}

proof fn lemma_end_literals()
    ensures
        "\r\n"@ == seq!['\r', '\n'],
        "\n"@ == seq!['\n'],
{
    reveal_strlit("\r\n");
    reveal_strlit("\n");
}

/// Up to 16384 bytes of lines are collected, whatever they say: after each line
/// the next one is awaited, until one is empty.
pub proof fn law_lines_are_collected(lines: Seq<Seq<char>>)
    requires
        forall|i: int| 0 <= i < lines.len() ==> !is_end(#[trigger] lines[i]),
        encode_utf8(together(lines)).len() <= 16384,
    ensures
        ({
            let left = (16384 - encode_utf8(together(lines)).len()) as nat;
            &&& server_laws::possible(arrivals(lines))
            &&& server_laws::run(arrivals(lines)) == (
                SessionView::Head { text: together(lines), budget: left },
                ActionView::ReadLine { limit: left },
            )
        }),
    decreases lines.len(),
{
    lemma_end_literals();
    let events = arrivals(lines);
    if lines.len() > 0 {
        let init = lines.drop_last();
        text::lemma_encode_concat(together(init), lines.last());
        assert forall|i: int| 0 <= i < init.len() implies !is_end(#[trigger] init[i]) by {
            assert(init[i] == lines[i]);
        }
        law_lines_are_collected(init);
        assert(events.drop_last() == arrivals(init));
        assert(!is_end(lines[lines.len() - 1]));
        assert(events.last() == EventView::Line(lines.last()));
        lemma_possible_push(arrivals(init), events.last());
        assert(arrivals(init).push(events.last()) == events);
    } else {
        assert(encode_utf8(Seq::<char>::empty()).len() == 0);
    }
}

/// One more event that is expected.
proof fn lemma_possible_push(events: Seq<EventView>, event: EventView)
    requires
        server_laws::possible(events),
        server_laws::run(events).0.expects(event),
    ensures
        server_laws::possible(events.push(event)),
        server_laws::run(events.push(event)) == server_laws::run(events).0.next(event),
{
    let all = events.push(event);
    assert(all.drop_last() == events);
    assert forall|i: int| 0 <= i < all.len() implies server_laws::run(all.take(i)).0.expects(
        #[trigger] all[i],
    ) by {
        if i < events.len() {
            assert(all.take(i) == events.take(i));
            assert(all[i] == events[i]);
        } else {
            assert(all.take(i) == events);
        }
    }
}

/// Where the head was cut off, by its limit or by the other side, the answer is
/// 400; where there was nothing at all, the connection is closed without one.
pub proof fn law_head_is_cut_off(text: Seq<char>, budget: nat)
    ensures
        ({
            let r = SessionView::Head { text, budget }.next(EventView::EndOfInput);
            &&& text.len() > 0 ==> answers(r, 400, "header too large or incomplete"@)
            &&& text.len() == 0 ==> r == (SessionView::Closed, ActionView::Close)
        }),
{
}

/// The empty line ends the head, and the lines before it decide: a method or an
/// encoding that is not supported is answered 501, any other fault 400, a body
/// of more than 67108864 bytes 413; of every other request the body is read,
/// to the byte.
pub proof fn law_head_is_complete(text: Seq<char>, budget: nat, end: Seq<char>)
    requires
        is_end(end),
    ensures
        ({
            let r = SessionView::Head { text, budget }.next(EventView::Line(end));
            match http::request_head(text) {
                Err(ParseErrorView::UnsupportedMethod(_)) => answers(r, 501, "not implemented"@),
                Err(ParseErrorView::UnsupportedTransferEncoding) => answers(
                    r,
                    501,
                    "not implemented"@,
                ),
                Err(ParseErrorView::MalformedRequestLine) => answers(r, 400, "bad request"@),
                Err(ParseErrorView::InvalidContentLength) => answers(r, 400, "bad request"@),
                Err(ParseErrorView::ConflictingContentLength) => answers(r, 400, "bad request"@),
                Ok(request) => {
                    &&& request.content_length > 67108864 ==> answers(r, 413, "payload too large"@)
                    &&& request.content_length <= 67108864 ==> r == (
                        SessionView::Body { request },
                        ActionView::ReadBody(request.content_length),
                    )
                },
            }
        }),
{
    lemma_end_literals();
}

/// With the body the store is asked for exactly the object that the path names,
/// by the method of the request, and a put stores exactly the body; a path that
/// names no object is answered 400.
pub proof fn law_body_is_complete(request: RequestHeadView, body: Seq<u8>)
    ensures
        ({
            let r = SessionView::Body { request }.next(EventView::Body(body));
            &&& forall|bucket: Seq<char>, key: Seq<char>|
                request.path == #[trigger] message_laws::path_of(bucket, key)
                    && message_laws::is_name(bucket) && message_laws::is_key(key) ==> r == (
                match request.method {
                    Method::Put => (
                        SessionView::Putting,
                        ActionView::Put { bucket, key, value: body },
                    ),
                    Method::Get => (SessionView::Getting, ActionView::Get { bucket, key }),
                    Method::Delete => (SessionView::Deleting, ActionView::Delete { bucket, key }),
                })
            &&& (forall|bucket: Seq<char>, key: Seq<char>|
                request.path == #[trigger] message_laws::path_of(bucket, key)
                    && message_laws::is_name(bucket) ==> !message_laws::is_key(key)) ==> answers(
                r,
                400,
                "path must be /{bucket}/{key}"@,
            )
        }),
{
    assert forall|bucket: Seq<char>, key: Seq<char>|
        request.path == #[trigger] message_laws::path_of(bucket, key) && message_laws::is_name(
            bucket,
        ) && message_laws::is_key(key) implies http::target_of(request.path) == Some(
        http::TargetView { bucket, key },
    ) by {
        message_laws::law_target(request.path, bucket, key);
    }
    if http::target_of(request.path) is Some {
        let t = http::target_of(request.path).unwrap();
        message_laws::law_target(request.path, t.bucket, t.key);
        assert(request.path == message_laws::path_of(t.bucket, t.key));
    }
}

/// What the store says is what is answered: 200 for a value that was stored, 200
/// with the value itself for one that was found, 404 for one that is missing,
/// and 204 for one that was removed.
pub proof fn law_store_is_answered(value: Seq<u8>)
    ensures
        SessionView::Putting.next(EventView::Stored) == (
            SessionView::Closed,
            ActionView::Respond { status: 200, body: Seq::<u8>::empty() },
        ),
        SessionView::Getting.next(EventView::Found(value)) == (
            SessionView::Closed,
            ActionView::Respond { status: 200, body: value },
        ),
        answers(SessionView::Getting.next(EventView::Missing), 404, "not found"@),
        SessionView::Deleting.next(EventView::Deleted) == (
            SessionView::Closed,
            ActionView::Respond { status: 204, body: Seq::<u8>::empty() },
        ),
{
}

/// What can come of an action is taken: lines within the limit, the end of the
/// input, a body of the length asked for, and what the store can say.
pub proof fn law_what_is_expected(s: SessionView, event: EventView)
    ensures
        s.expects(event) <==> match (s, event) {
            (SessionView::Head { text, budget }, EventView::Line(line)) => encode_utf8(line).len()
                <= budget,
            (SessionView::Head { text, budget }, EventView::EndOfInput) => true,
            (SessionView::Body { request }, EventView::Body(body)) => body.len()
                == request.content_length,
            (SessionView::Putting, EventView::Stored) => true,
            (SessionView::Getting, EventView::Found(_)) => true,
            (SessionView::Getting, EventView::Missing) => true,
            (SessionView::Deleting, EventView::Deleted) => true,
            _ => false,
        },
{
}

// ---------------------------------------------------------------------------
// Whole requests
// ---------------------------------------------------------------------------

/// Lines, each with its ending.
pub open spec fn ended_lines(ls: Seq<Seq<char>>, bare: Seq<bool>) -> Seq<Seq<char>> {
    Seq::new(ls.len(), |i: int| message_laws::ended(ls[i], bare[i]))
}

/// The events of a request that arrives whole: its lines, the empty line, and
/// its body.
pub open spec fn whole_request(
    ls: Seq<Seq<char>>,
    bare: Seq<bool>,
    end: Seq<char>,
    body: Seq<u8>,
) -> Seq<EventView> {
    arrivals(ended_lines(ls, bare)).push(EventView::Line(end)).push(EventView::Body(body))
}

proof fn lemma_together(ls: Seq<Seq<char>>, bare: Seq<bool>)
    requires
        ls.len() == bare.len(),
    ensures
        together(ended_lines(ls, bare)) == message_laws::text_of(ls, bare),
    decreases ls.len(),
{
    if ls.len() > 0 {
        lemma_together(ls.drop_last(), bare.drop_last());
        assert(ended_lines(ls, bare).drop_last() == ended_lines(ls.drop_last(), bare.drop_last()));
    }
}

/// The method as it is written.
pub open spec fn method_text(method: Method) -> Seq<char> {
    match method {
        Method::Put => seq!['P', 'U', 'T'],
        Method::Get => seq!['G', 'E', 'T'],
        Method::Delete => seq!['D', 'E', 'L', 'E', 'T', 'E'],
    }
}

/// A well-formed request for a safe object reaches the store with exactly that
/// object and body, whatever headers stand in its head, so long as they say that
/// the body has the length that it has. Its lines may end either way.
pub proof fn law_request_with_any_headers(
    method: Method,
    bucket: Seq<char>,
    key: Seq<char>,
    version: Seq<char>,
    headers: Seq<Seq<char>>,
    bare: Seq<bool>,
    end: Seq<char>,
    body: Seq<u8>,
)
    requires
        message_laws::is_name(bucket) && !bucket.contains(' '),
        message_laws::is_key(key) && !key.contains(' '),
        version.len() > 0 && !version.contains(' '),
        ({
            let first = method_text(method) + seq![' '] + message_laws::path_of(bucket, key)
                + seq![' '] + version;
            let ls = seq![first] + headers;
            &&& message_laws::are_lines(ls, bare)
            &&& encode_utf8(message_laws::text_of(ls, bare)).len() + end.len() <= 16384
        }),
        message_laws::are_headers(headers),
        message_laws::headers_say(headers, Ok(body.len())),
        is_end(end),
        body.len() <= 67108864,
    ensures
        ({
            let first = method_text(method) + seq![' '] + message_laws::path_of(bucket, key)
                + seq![' '] + version;
            let events = whole_request(seq![first] + headers, bare, end, body);
            &&& server_laws::possible(events)
            &&& server_laws::run(events) == (match method {
                Method::Put => (
                    SessionView::Putting,
                    ActionView::Put { bucket, key, value: body },
                ),
                Method::Get => (SessionView::Getting, ActionView::Get { bucket, key }),
                Method::Delete => (SessionView::Deleting, ActionView::Delete { bucket, key }),
            })
        }),
{
    let path = message_laws::path_of(bucket, key);
    let m = method_text(method);
    let first = m + seq![' '] + path + seq![' '] + version;
    let ls = seq![first] + headers;
    let lines = ended_lines(ls, bare);
    let text = message_laws::text_of(ls, bare);
    lemma_together(ls, bare);
    lemma_not_ends(first, headers, bare);
    law_lines_are_collected(lines);
    let collected = arrivals(lines);
    let budget = (16384 - encode_utf8(text).len()) as nat;
    // The empty line.
    lemma_end_bytes(end);
    lemma_possible_push(collected, EventView::Line(end));
    law_head_is_complete(text, budget, end);
    lemma_request_is_read(method, bucket, key, version, headers, bare, body.len());
    let request = RequestHeadView { method, path, content_length: body.len() };
    // The body.
    let headed = collected.push(EventView::Line(end));
    lemma_possible_push(headed, EventView::Body(body));
    law_body_is_complete(request, body);
}

proof fn lemma_end_bytes(end: Seq<char>)
    requires
        is_end(end),
    ensures
        encode_utf8(end).len() == end.len(),
{
    assert(is_ascii_chars(end));
    is_ascii_chars_encode_utf8(end);
}

/// A request for an object is read as what it is, whatever its headers are, so
/// long as they give the length.
proof fn lemma_request_is_read(
    method: Method,
    bucket: Seq<char>,
    key: Seq<char>,
    version: Seq<char>,
    headers: Seq<Seq<char>>,
    bare: Seq<bool>,
    n: nat,
)
    requires
        !bucket.contains(' '),
        !key.contains(' '),
        version.len() > 0 && !version.contains(' '),
        message_laws::are_lines(
            seq![
                method_text(method) + seq![' '] + message_laws::path_of(bucket, key) + seq![' ']
                    + version,
            ] + headers,
            bare,
        ),
        message_laws::are_headers(headers),
        message_laws::headers_say(headers, Ok(n)),
    ensures
        http::request_head(
            message_laws::text_of(
                seq![
                    method_text(method) + seq![' '] + message_laws::path_of(bucket, key)
                        + seq![' '] + version,
                ] + headers,
                bare,
            ),
        ) == Ok::<RequestHeadView, ParseErrorView>(
            RequestHeadView {
                method,
                path: message_laws::path_of(bucket, key),
                content_length: n,
            },
        ),
{
    let path = message_laws::path_of(bucket, key);
    let m = method_text(method);
    let text = message_laws::text_of(seq![m + seq![' '] + path + seq![' '] + version] + headers, bare);
    assert(!path.contains(' ')) by {
        if path.contains(' ') {
            let i = choose|i: int| 0 <= i < path.len() && path[i] == ' ';
            if 1 <= i < 1 + bucket.len() {
                assert(bucket[i - 1] == ' ');
            } else if i >= 2 + bucket.len() {
                assert(key[i - 2 - bucket.len()] == ' ');
            }
        }
    }
    message_laws::law_request_head(m, path, version, headers, bare, Seq::empty());
    assert(text + Seq::<char>::empty() == text);
    let r = http::request_head(text);
    message_laws::law_headers(headers, Ok(n));
    match r {
        Ok(request) => {
            message_laws::law_headers(headers, Ok(request.content_length));
        },
        Err(e) => {
            message_laws::law_headers(headers, Err(e));
        },
    }
}

/// Lines that are not empty are not taken for the end of the head.
proof fn lemma_not_ends(first: Seq<char>, headers: Seq<Seq<char>>, bare: Seq<bool>)
    requires
        first.len() > 0,
        message_laws::are_lines(seq![first] + headers, bare),
        message_laws::are_headers(headers),
    ensures
        forall|i: int|
            0 <= i < ended_lines(seq![first] + headers, bare).len() ==> !is_end(
                #[trigger] ended_lines(seq![first] + headers, bare)[i],
            ),
{
    let ls = seq![first] + headers;
    let lines = ended_lines(ls, bare);
    assert forall|i: int| 0 <= i < lines.len() implies !is_end(#[trigger] lines[i]) by {
        let line = ls[i];
        assert(message_laws::is_line(line, bare[i]));
        if i > 0 {
            assert(headers[i - 1].len() > 0);
        }
        assert(line.len() > 0);
        assert(lines[i] == message_laws::ended(line, bare[i]));
        if lines[i] == seq!['\r', '\n'] {
            assert(lines[i][0] == '\r');
            assert(line.last() == '\r');
        }
    }
}

/// A header that is about neither length nor encoding makes no difference to
/// what headers say, wherever it stands among them.
pub proof fn law_other_headers_say_nothing(
    before: Seq<Seq<char>>,
    header: Seq<char>,
    after: Seq<Seq<char>>,
    r: Result<nat, ParseErrorView>,
)
    requires
        !message_laws::is_length(header),
        !message_laws::is_encoding(header),
    ensures
        message_laws::headers_say(before + seq![header] + after, r)
            == message_laws::headers_say(before + after, r),
{
    message_laws::lemma_other_header(before, header, after);
    message_laws::law_headers(before + seq![header] + after, r);
    message_laws::law_headers(before + after, r);
}

// ---------------------------------------------------------------------------
// From the bytes that a client sends
// ---------------------------------------------------------------------------

/// The bytes that arrive as the given events: lines in UTF-8, and bodies as they
/// are.
pub open spec fn wire(events: Seq<EventView>) -> Seq<u8>
    decreases events.len(),
{
    if events.len() == 0 {
        Seq::empty()
    } else {
        wire(events.drop_last()) + match events.last() {
            EventView::Line(line) => encode_utf8(line),
            EventView::Body(body) => body,
            _ => Seq::empty(),
        }
    }
}

/// A whole line: it ends in a line feed, and holds no other.
pub open spec fn is_whole_line(line: Seq<char>) -> bool {
    line.len() > 0 && line.last() == '\n' && !line.drop_last().contains('\n')
}

/// The request of a client, byte for byte: the method, the path of bucket and
/// key, the length of the whole value, and the whole value.
pub proof fn law_call_bytes(method: Method, bucket: Seq<char>, key: Seq<char>, value: Seq<u8>)
    ensures
        client::object_request(method, bucket, key, value) == encode_utf8(
            method_text(method) + seq![' '] + message_laws::path_of(bucket, key)
                + " HTTP/1.1\r\nContent-Length: "@ + text::decimal(value.len())
                + "\r\nConnection: close\r\n\r\n"@,
        ) + value,
{
    let path = message_laws::path_of(bucket, key);
    message_laws::law_request_bytes(method, path, value);
    reveal_strlit("/");
    assert("/"@ == seq!['/']);
    assert(http::object_path(bucket, key) == path);
    reveal_strlit("PUT ");
    reveal_strlit("GET ");
    reveal_strlit("DELETE ");
    assert("PUT "@ == method_text(Method::Put) + seq![' ']);
    assert("GET "@ == method_text(Method::Get) + seq![' ']);
    assert("DELETE "@ == method_text(Method::Delete) + seq![' ']);
}

/// The request of a client arrives as the lines of its head and its value: the
/// bytes of the call are those of these events, each line is a whole one, and
/// the last event is the value.
pub proof fn law_call_arrives(method: Method, bucket: Seq<char>, key: Seq<char>, value: Seq<u8>)
    requires
        !bucket.contains('\n'),
        !key.contains('\n'),
    ensures
        ({
            let events = server_laws::request_events(method, bucket, key, value);
            &&& client::object_request(method, bucket, key, value) == wire(events)
            &&& events.last() == EventView::Body(value)
            &&& forall|i: int|
                0 <= i < events.len() - 1 ==> (#[trigger] events[i] matches EventView::Line(line)
                    && is_whole_line(line))
        }),
{
    let first = server_laws::object_line(method, bucket, key);
    let n = value.len();
    let ls = server_laws::head_lines(first, n);
    let head = server_laws::head_events(first, n);
    let events = server_laws::request_events(method, bucket, key, value);
    assert(events.drop_last() == head);
    let e3 = head.drop_last();
    let e2 = e3.drop_last();
    let e1 = e2.drop_last();
    let e0 = e1.drop_last();
    assert(e0.len() == 0);
    assert(head.last() == EventView::Line(ls[3]) && e3.last() == EventView::Line(ls[2])
        && e2.last() == EventView::Line(ls[1]) && e1.last() == EventView::Line(ls[0]));
    reveal_with_fuel(wire, 6);
    assert(wire(e0) == Seq::<u8>::empty());
    assert(wire(e1) == encode_utf8(ls[0]));
    assert(wire(e2) == encode_utf8(ls[0]) + encode_utf8(ls[1]));
    assert(wire(e3) == encode_utf8(ls[0]) + encode_utf8(ls[1]) + encode_utf8(ls[2]));
    text::lemma_encode_concat(ls[0], ls[1]);
    text::lemma_encode_concat(ls[0] + ls[1], ls[2]);
    text::lemma_encode_concat(ls[0] + ls[1] + ls[2], ls[3]);
    server_laws::law_head_lines(first, n);
    assert(wire(head) == encode_utf8(http::message_head(first, n)));
    assert(wire(events) == wire(head) + value);
    lemma_lines_are_whole(method, bucket, key, n);
    assert forall|i: int| 0 <= i < events.len() - 1 implies (#[trigger] events[i] matches
        EventView::Line(line) && is_whole_line(line)) by {
        assert(events[i] == EventView::Line(ls[i]));
        assert(is_whole_line(ls[i]));
    }
}

proof fn lemma_lines_are_whole(method: Method, bucket: Seq<char>, key: Seq<char>, n: nat)
    requires
        !bucket.contains('\n'),
        !key.contains('\n'),
    ensures
        forall|i: int|
            0 <= i < 4 ==> is_whole_line(
                #[trigger] server_laws::head_lines(
                    server_laws::object_line(method, bucket, key),
                    n,
                )[i],
            ),
{
    let first = server_laws::object_line(method, bucket, key);
    let ls = server_laws::head_lines(first, n);
    reveal_strlit("\r\n");
    reveal_strlit("Content-Length: ");
    reveal_strlit("Connection: close");
    reveal_strlit("/");
    reveal_strlit(" ");
    reveal_strlit("PUT");
    reveal_strlit("GET");
    reveal_strlit("DELETE");
    reveal_strlit(" HTTP/1.1");
    text::lemma_decimal(n);
    assert(!first.contains('\n')) by {
        let token = method.token();
        let path = http::object_path(bucket, key);
        assert(first == token + " "@ + path + " HTTP/1.1"@);
        if first.contains('\n') {
            let i = choose|i: int| 0 <= i < first.len() && first[i] == '\n';
            let a = token.len() as int + 1;
            if i < token.len() {
                assert(token[i] == '\n');
            } else if i == token.len() {
                assert(first[i] == ' ');
            } else if i < a + path.len() {
                assert(path[i - a] == '\n');
                if 1 <= i - a < 1 + bucket.len() {
                    assert(bucket[i - a - 1] == '\n');
                } else if i - a >= 2 + bucket.len() {
                    assert(key[i - a - 2 - bucket.len()] == '\n');
                }
            } else {
                assert(first[i] == " HTTP/1.1"@[i - a - path.len()]);
            }
        }
    }
    let digits = text::decimal(n);
    assert forall|i: int| 0 <= i < 4 implies is_whole_line(#[trigger] ls[i]) by {
        let body = ls[i].drop_last();
        if body.contains('\n') {
            let t = choose|t: int| 0 <= t < body.len() && body[t] == '\n';
            if i == 0 {
                if t < first.len() {
                    assert(first[t] == '\n');
                }
            } else if i == 1 {
                if t < 16 {
                    assert(body[t] == "Content-Length: "@[t]);
                } else if t < 16 + digits.len() {
                    assert(body[t] == digits[t - 16]);
                    assert(text::is_digit(digits[t - 16]));
                }
            } else if i == 2 {
                if t < 17 {
                    assert(body[t] == "Connection: close"@[t]);
                }
            }
        }
    }
}

/// What a client puts is what a client gets, from the bytes that it sends to the
/// bytes that it receives: the put's bytes arrive as events that lead to the
/// store being asked to store exactly the value; the get's bytes arrive as
/// events that lead to it being asked for that object; what is read once the
/// record is written is the value; and the bytes of the answer are understood as
/// the value.
pub proof fn law_put_then_get_by_bytes(
    s: StoreView,
    log: Seq<u8>,
    bucket: Seq<char>,
    key: Seq<char>,
    value: Seq<u8>,
)
    requires
        store_laws::describes(s, log),
        message_laws::is_name(bucket) && !bucket.contains(' '),
        message_laws::is_key(key) && !key.contains(' '),
        value.len() <= 67108864,
        server_laws::head_fits(Method::Put, bucket, key, value.len()),
        server_laws::head_fits(Method::Get, bucket, key, 0),
    ensures
        ({
            let put = server_laws::request_events(Method::Put, bucket, key, value);
            let get = server_laws::request_events(Method::Get, bucket, key, Seq::empty());
            let append = s.putting(bucket, key, value);
            let after = s.committed(append);
            let new_log = store_laws::written(log, append.offset, append.record);
            &&& client::object_request(Method::Put, bucket, key, value) == wire(put)
            &&& server_laws::possible(put)
            &&& server_laws::run(put) == (
                SessionView::Putting,
                ActionView::Put { bucket, key, value },
            )
            &&& client::object_request(Method::Get, bucket, key, Seq::empty()) == wire(get)
            &&& server_laws::possible(get)
            &&& server_laws::run(get) == (SessionView::Getting, ActionView::Get { bucket, key })
            &&& store_laws::read(after, new_log, bucket, key) == Some(value)
            &&& client::value_of(http::message(http::status_line(200), value)) == Ok::<
                Option<Seq<u8>>,
                ClientErrorView,
            >(Some(value))
        }),
{
    message_laws::law_target(message_laws::path_of(bucket, key), bucket, key);
    message_laws::lemma_name(bucket);
    message_laws::lemma_key(key);
    assert(!bucket.contains('\n') && !key.contains('\n'));
    server_laws::law_request_reaches_store(Method::Put, bucket, key, value);
    server_laws::law_request_reaches_store(Method::Get, bucket, key, Seq::empty());
    law_call_arrives(Method::Put, bucket, key, value);
    law_call_arrives(Method::Get, bucket, key, Seq::empty());
    server_laws::law_put_then_get_over_http(s, log, bucket, key, value);
    law_store_is_answered(value);
}

} // verus!
