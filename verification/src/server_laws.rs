//! What holds of a connection over all that can happen on it.

use vstd::prelude::*;
use vstd::utf8::*;

use crate::client;
use crate::client::ClientErrorView;
use crate::client_laws;
use crate::http;
use crate::http::{Method, RequestHeadView};
use crate::http_laws;
use crate::server;
use crate::server::{ActionView, EventView, SessionView};
use crate::store;
use crate::store::StoreView;
use crate::store_laws;
use crate::text;

verus! {

/// What holds of every connection: the bytes of head that were read and those
/// that may still follow make up the limit, and a request whose body is awaited
/// has a path within that limit and a body within its own.
pub open spec fn sound(s: SessionView) -> bool {
    match s {
        SessionView::Head { text, budget } => encode_utf8(text).len() + budget
            == server::MAX_HEADER,
        SessionView::Body { request } => request.content_length <= server::MAX_BODY
            && encode_utf8(request.path).len() <= server::MAX_HEADER,
        _ => true,
    }
}

/// The state and action at the start of a connection.
pub open spec fn start() -> (SessionView, ActionView) {
    (
        SessionView::Head { text: Seq::empty(), budget: server::MAX_HEADER as nat },
        ActionView::ReadLine { limit: server::MAX_HEADER as nat },
    )
}

/// The limits: a head has at most 16384 bytes, a body at most 67108864, and an
/// answer is received with 4096 bytes of room for its head.
pub proof fn law_sizes()
    ensures
        server::MAX_HEADER == 16384,
        server::MAX_BODY == 67108864,
        client::MAX_RESPONSE == 67108864 + 4096,
{
}

/// A connection starts sound, and every event that it expects keeps it so. In
/// particular the head never outgrows its limit, nor the body its own.
pub proof fn law_limits(s: SessionView, event: EventView)
    requires
        sound(s),
        s.expects(event),
    ensures
        sound(start().0),
        sound(s.next(event).0),
        s.next(event).1 matches ActionView::ReadBody(n) ==> n <= server::MAX_BODY,
        s.next(event).1 matches ActionView::ReadLine { limit } ==> limit <= server::MAX_HEADER,
{
    match (s, event) {
        (SessionView::Head { text, budget }, EventView::Line(line)) => {
            text::lemma_encode_concat(text, line);
            http_laws::lemma_path_is_part(text);
        },
        _ => {},
    }
}

/// However a connection goes, it stays sound.
pub proof fn law_runs_are_sound(events: Seq<EventView>)
    requires
        possible(events),
    ensures
        sound(run(events).0),
    decreases events.len(),
{
    if events.len() > 0 {
        let init = events.drop_last();
        let n = events.len() - 1;
        assert(events.take(n) == init);
        assert forall|i: int| 0 <= i < init.len() implies run(init.take(i)).0.expects(
            #[trigger] init[i],
        ) by {
            assert(init[i] == events[i]);
            assert(init.take(i) == events.take(i));
        }
        law_runs_are_sound(init);
        assert(events[n] == events.last());
        law_limits(run(init).0, events.last());
    }
}

/// A connection is closed exactly when it is answered or given up, and it is
/// given up only where the other side sent nothing at all: whatever else the
/// connection is told leads on to an answer, and to no more than one.
pub proof fn law_every_request_is_answered(s: SessionView, event: EventView)
    requires
        s.expects(event),
    ensures
        s.next(event).0 is Closed <==> s.next(event).1 is Respond || s.next(event).1 is Close,
        s.next(event).1 is Close ==> event is EndOfInput && s == (SessionView::Head {
            text: Seq::empty(),
            budget: s->budget,
        }),
        forall|e: EventView| s.next(event).0 is Closed ==> !#[trigger] s.next(event).0.expects(e),
{
    if s.next(event).1 is Close {
        assert(s->text == Seq::<char>::empty());
    }
}

/// The store is asked only for a request that was accepted as a whole: its path
/// names a safe object, and a value to store is the body, of exactly the
/// declared length and within the limit. The store never refuses it for its
/// lengths.
pub proof fn law_store_is_guarded(s: SessionView, event: EventView)
    requires
        sound(s),
        s.expects(event),
        s.next(event).1 is Put || s.next(event).1 is Get || s.next(event).1 is Delete,
    ensures
        s matches SessionView::Body { request } && {
            let t = http::target_of(request.path).unwrap();
            &&& http::target_of(request.path) is Some
            &&& http::is_valid_bucket(t.bucket)
            &&& http::is_safe_key_text(t.key)
            &&& request.content_length <= server::MAX_BODY
            &&& match s.next(event).1 {
                ActionView::Put { bucket, key, value } => {
                    &&& request.method == Method::Put
                    &&& bucket == t.bucket && key == t.key
                    &&& event == EventView::Body(value)
                    &&& value.len() == request.content_length
                    &&& store::encodable(store::composite_key(bucket, key), value)
                },
                ActionView::Get { bucket, key } => {
                    &&& request.method == Method::Get
                    &&& bucket == t.bucket && key == t.key
                },
                ActionView::Delete { bucket, key } => {
                    &&& request.method == Method::Delete
                    &&& bucket == t.bucket && key == t.key
                    &&& store::encodable(store::composite_key(bucket, key), Seq::empty())
                },
                _ => false,
            }
        },
{
    let request = s->request;
    let t = http::target_of(request.path).unwrap();
    http_laws::law_target(request.path, t.bucket, t.key);
    lemma_composite_len(t.bucket, t.key);
}

/// An object's key in the log takes up no more bytes than its path.
proof fn lemma_composite_len(bucket: Seq<char>, key: Seq<char>)
    ensures
        encode_utf8(store::composite_key(bucket, key)).len() <= encode_utf8(
            http::object_path(bucket, key),
        ).len(),
{
    reveal_strlit("/");
    let nul = seq!['\0'];
    let slash = "/"@;
    assert(is_ascii_chars(nul) && is_ascii_chars(slash));
    is_ascii_chars_encode_utf8(nul);
    is_ascii_chars_encode_utf8(slash);
    assert(store::composite_key(bucket, key) == bucket + nul + key);
    text::lemma_encode_concat(bucket + nul, key);
    text::lemma_encode_concat(bucket, nul);
    text::lemma_encode_concat(slash + bucket + slash, key);
    text::lemma_encode_concat(slash + bucket, slash);
    text::lemma_encode_concat(slash, bucket);
}

/// The connection after a series of events.
pub open spec fn run(events: Seq<EventView>) -> (SessionView, ActionView)
    decreases events.len(),
{
    if events.len() == 0 {
        start()
    } else {
        run(events.drop_last()).0.next(events.last())
    }
}

/// Every event of a series was one that the connection expected.
pub open spec fn possible(events: Seq<EventView>) -> bool {
    forall|i: int|
        0 <= i < events.len() ==> run(events.take(i)).0.expects(#[trigger] events[i])
}

/// The lines of the head of a message, each with its line ending.
pub open spec fn head_lines(first: Seq<char>, length: nat) -> Seq<Seq<char>> {
    seq![
        first + "\r\n"@,
        "Content-Length: "@ + text::decimal(length) + "\r\n"@,
        "Connection: close"@ + "\r\n"@,
        "\r\n"@,
    ]
}

/// The events of a head that arrives whole: its lines.
pub open spec fn head_events(first: Seq<char>, length: nat) -> Seq<EventView> {
    head_lines(first, length).map_values(|line: Seq<char>| EventView::Line(line))
}

/// The first line of a request for an object.
pub open spec fn object_line(method: Method, bucket: Seq<char>, key: Seq<char>) -> Seq<char> {
    http::request_line(method, http::object_path(bucket, key))
}

/// The events of a request that arrives whole: the lines of its head, and its
/// body.
pub open spec fn request_events(
    method: Method,
    bucket: Seq<char>,
    key: Seq<char>,
    body: Seq<u8>,
) -> Seq<EventView> {
    head_events(object_line(method, bucket, key), body.len()).push(EventView::Body(body))
}

/// The lines of a head, one after the other, are the head.
pub proof fn law_head_lines(first: Seq<char>, length: nat)
    ensures
        ({
            let ls = head_lines(first, length);
            ls[0] + ls[1] + ls[2] + ls[3] == http::message_head(first, length)
        }),
{
}

/// The head of a request for an object is within the limit.
pub open spec fn head_fits(
    method: Method,
    bucket: Seq<char>,
    key: Seq<char>,
    length: nat,
) -> bool {
    encode_utf8(http::message_head(object_line(method, bucket, key), length)).len()
        <= server::MAX_HEADER
}

/// The lines of a head lead to what the head as a whole calls for.
proof fn lemma_head_arrives(first: Seq<char>, n: nat)
    requires
        first.len() > 0,
        encode_utf8(http::message_head(first, n)).len() <= server::MAX_HEADER,
    ensures
        possible(head_events(first, n)),
        run(head_events(first, n)) == server::head_complete(http::message_head(first, n)),
{
    let ls = head_lines(first, n);
    let events = head_events(first, n);
    reveal_strlit("\r\n");
    reveal_strlit("\n");
    reveal_strlit("Content-Length: ");
    reveal_strlit("Connection: close");
    // The text that the lines add up to.
    let t0 = Seq::<char>::empty();
    let t1 = t0 + ls[0];
    let t2 = t1 + ls[1];
    let t3 = t2 + ls[2];
    let head = http::message_head(first, n);
    assert(head == t3 + "\r\n"@ + Seq::<char>::empty());
    assert(t3.last() == '\n');
    http_laws::law_empty_line_ends_head(t3, Seq::empty());
    assert(http::request_head(t3) == http::request_head(head));
    // The limit on the head.
    text::lemma_encode_concat(t0, ls[0]);
    text::lemma_encode_concat(t1, ls[1]);
    text::lemma_encode_concat(t2, ls[2]);
    text::lemma_encode_concat(t3, ls[3]);
    assert(head == t3 + ls[3]);
    // Step by step.
    assert(ls[0].len() > 2 && ls[1].len() > 2 && ls[2].len() > 2);
    let e0 = events.take(0);
    let e1 = events.take(1);
    let e2 = events.take(2);
    let e3 = events.take(3);
    assert(e1.drop_last() == e0 && e2.drop_last() == e1 && e3.drop_last() == e2
        && events.drop_last() == e3);
    assert(run(e0) == start());
    assert(run(e1).0 == (SessionView::Head {
        text: t1,
        budget: (server::MAX_HEADER - encode_utf8(t1).len()) as nat,
    }));
    assert(run(e2).0 == (SessionView::Head {
        text: t2,
        budget: (server::MAX_HEADER - encode_utf8(t2).len()) as nat,
    }));
    assert(run(e3).0 == (SessionView::Head {
        text: t3,
        budget: (server::MAX_HEADER - encode_utf8(t3).len()) as nat,
    }));
    assert(server::is_empty_line(ls[3]));
    assert forall|i: int| 0 <= i < events.len() implies run(events.take(i)).0.expects(
        #[trigger] events[i],
    ) by {
        assert(i == 0 || i == 1 || i == 2 || i == 3);
    }
}

/// What holds of both parts of a path holds of the path.
proof fn lemma_path_lacks(bucket: Seq<char>, key: Seq<char>, c: char)
    requires
        c != '/',
    ensures
        http::object_path(bucket, key).contains(c) <==> bucket.contains(c) || key.contains(c),
{
    reveal_strlit("/");
    let path = http::object_path(bucket, key);
    if path.contains(c) {
        let i = choose|i: int| 0 <= i < path.len() && path[i] == c;
        if i < 1 + bucket.len() {
            assert(bucket[i - 1] == c);
        } else {
            assert(key[i - 2 - bucket.len()] == c);
        }
    }
    if bucket.contains(c) {
        let i = choose|i: int| 0 <= i < bucket.len() && bucket[i] == c;
        assert(path[i + 1] == c);
    }
    if key.contains(c) {
        let i = choose|i: int| 0 <= i < key.len() && key[i] == c;
        assert(path[i + 2 + bucket.len()] == c);
    }
}

/// A request that a client builds for a safe object without spaces in its name
/// reaches the store as it was meant, where head and body are within their
/// limits, and the store does not refuse it for its lengths.
pub proof fn law_request_reaches_store(
    method: Method,
    bucket: Seq<char>,
    key: Seq<char>,
    body: Seq<u8>,
)
    requires
        http::is_valid_bucket(bucket),
        http::is_safe_key_text(key),
        !bucket.contains(' '),
        !key.contains(' '),
        body.len() <= server::MAX_BODY,
        head_fits(method, bucket, key, body.len()),
    ensures
        possible(request_events(method, bucket, key, body)),
        run(request_events(method, bucket, key, body)) == (match method {
            Method::Put => (
                SessionView::Putting,
                ActionView::Put { bucket, key, value: body },
            ),
            Method::Get => (SessionView::Getting, ActionView::Get { bucket, key }),
            Method::Delete => (SessionView::Deleting, ActionView::Delete { bucket, key }),
        }),
        store::encodable(store::composite_key(bucket, key), body),
{
    let path = http::object_path(bucket, key);
    let first = object_line(method, bucket, key);
    let n = body.len();
    let head = head_events(first, n);
    let events = request_events(method, bucket, key, body);
    lemma_path_lacks(bucket, key, ' ');
    lemma_path_lacks(bucket, key, '\n');
    lemma_object_line(method, bucket, key);
    http_laws::law_request_round_trip(method, path, n);
    http_laws::law_target(path, bucket, key);
    lemma_head_arrives(first, n);
    assert(events.drop_last() == head);
    assert(run(head).0 == (SessionView::Body {
        request: RequestHeadView { method, path, content_length: n },
    }));
    assert forall|i: int| 0 <= i < events.len() implies run(events.take(i)).0.expects(
        #[trigger] events[i],
    ) by {
        if i < head.len() {
            assert(events.take(i) == head.take(i));
            assert(events[i] == head[i]);
        } else {
            assert(events.take(i) == head);
        }
    }
    http_laws::lemma_path_is_part(http::message_head(first, n));
    lemma_composite_len(bucket, key);
}

/// The first line of a request is not empty, nor is the path in it.
proof fn lemma_object_line(method: Method, bucket: Seq<char>, key: Seq<char>)
    ensures
        object_line(method, bucket, key).len() > 0,
        http::object_path(bucket, key).len() > 0,
{
    reveal_strlit("/");
    reveal_strlit(" ");
}

/// A request for a name with a space in it is answered 400 once its head is
/// there, and the store is not asked.
pub proof fn law_space_is_answered_400(
    method: Method,
    bucket: Seq<char>,
    key: Seq<char>,
    n: nat,
)
    requires
        bucket.contains(' ') || key.contains(' '),
        !bucket.contains('\n'),
        !key.contains('\n'),
        n <= usize::MAX,
        head_fits(method, bucket, key, n),
    ensures
        possible(head_events(object_line(method, bucket, key), n)),
        run(head_events(object_line(method, bucket, key), n)) == server::reply(
            400,
            "bad request"@,
        ),
{
    lemma_path_lacks(bucket, key, ' ');
    lemma_path_lacks(bucket, key, '\n');
    lemma_object_line(method, bucket, key);
    http_laws::law_space_in_path_is_refused(method, http::object_path(bucket, key), n);
    lemma_head_arrives(object_line(method, bucket, key), n);
}

/// No request is served for another object than the one it was built for: once
/// its head is there it is either answered, or its body is read; and then it is
/// again either answered, or the store is asked for exactly that object.
pub proof fn law_no_other_object_is_served(
    method: Method,
    bucket: Seq<char>,
    key: Seq<char>,
    body: Seq<u8>,
)
    requires
        !bucket.contains('/'),
        !bucket.contains('\n'),
        !key.contains('\n'),
        body.len() <= usize::MAX,
        head_fits(method, bucket, key, body.len()),
    ensures
        ({
            let headed = run(head_events(object_line(method, bucket, key), body.len()));
            let done = run(request_events(method, bucket, key, body));
            ||| headed.1 is Respond
            ||| {
                &&& headed.1 == ActionView::ReadBody(body.len())
                &&& {
                    ||| done.1 is Respond
                    ||| done.1 == match method {
                        Method::Put => ActionView::Put { bucket, key, value: body },
                        Method::Get => ActionView::Get { bucket, key },
                        Method::Delete => ActionView::Delete { bucket, key },
                    }
                }
            }
        }),
{
    let path = http::object_path(bucket, key);
    let n = body.len();
    let first = object_line(method, bucket, key);
    lemma_path_lacks(bucket, key, ' ');
    lemma_path_lacks(bucket, key, '\n');
    lemma_object_line(method, bucket, key);
    lemma_head_arrives(first, n);
    if path.contains(' ') {
        law_space_is_answered_400(method, bucket, key, n);
    } else {
        http_laws::law_request_round_trip(method, path, n);
        assert(request_events(method, bucket, key, body).drop_last() == head_events(first, n));
        if http::target_of(path) is Some {
            let t = http::target_of(path).unwrap();
            http_laws::law_target(path, t.bucket, t.key);
            lemma_path_is_unique(bucket, key, t.bucket, t.key);
        }
    }
}

/// A path names one object, where the buckets hold no slash.
proof fn lemma_path_is_unique(
    bucket1: Seq<char>,
    key1: Seq<char>,
    bucket2: Seq<char>,
    key2: Seq<char>,
)
    requires
        !bucket1.contains('/'),
        !bucket2.contains('/'),
        http::object_path(bucket1, key1) == http::object_path(bucket2, key2),
    ensures
        bucket1 == bucket2,
        key1 == key2,
{
    reveal_strlit("/");
    let p1 = http::object_path(bucket1, key1);
    let p2 = http::object_path(bucket2, key2);
    let n1 = bucket1.len() as int;
    let n2 = bucket2.len() as int;
    if n1 < n2 {
        assert(p1[n1 + 1] == '/');
        assert(p2[n1 + 1] == bucket2[n1]);
    } else if n2 < n1 {
        assert(p2[n2 + 1] == '/');
        assert(p1[n2 + 1] == bucket1[n2]);
    }
    assert(p1.subrange(1, n1 + 1) == bucket1);
    assert(p2.subrange(1, n2 + 1) == bucket2);
    assert(p1.skip(n1 + 2) == key1);
    assert(p2.skip(n2 + 2) == key2);
}

/// The client understands each answer of the server as it was meant: a put and
/// a delete as done, a value found as that value, and a value missing as none.
pub proof fn law_client_understands_server(value: Seq<u8>)
    requires
        value.len() <= usize::MAX,
    ensures
        SessionView::Putting.next(EventView::Stored).1 matches ActionView::Respond { status, body }
            && client::done_of(http::message(http::status_line(status), body)) == Ok::<
            (),
            ClientErrorView,
        >(()),
        SessionView::Deleting.next(EventView::Deleted).1 matches ActionView::Respond {
            status,
            body,
        } && client::done_of(http::message(http::status_line(status), body)) == Ok::<
            (),
            ClientErrorView,
        >(()),
        SessionView::Getting.next(EventView::Found(value)).1 matches ActionView::Respond {
            status,
            body,
        } && client::value_of(http::message(http::status_line(status), body)) == Ok::<
            Option<Seq<u8>>,
            ClientErrorView,
        >(Some(value)),
        SessionView::Getting.next(EventView::Missing).1 matches ActionView::Respond { status, body }
            && client::value_of(http::message(http::status_line(status), body)) == Ok::<
            Option<Seq<u8>>,
            ClientErrorView,
        >(None),
{
    client_laws::law_answer_round_trip(200, Seq::empty());
    client_laws::law_answer_round_trip(204, Seq::empty());
    client_laws::law_answer_round_trip(200, value);
    reveal_strlit("not found");
    let text = "not found"@;
    assert(is_ascii_chars(text));
    is_ascii_chars_encode_utf8(text);
    client_laws::law_answer_round_trip(404, encode_utf8(text));
}

/// What a client puts is what a client gets, all the way: the put reaches the
/// store with the value, and the store has a record for it; once the record is written and committed, the store
/// reads that value; the get reaches the store; and the answer to it is
/// understood as that value.
pub proof fn law_put_then_get_over_http(
    s: StoreView,
    log: Seq<u8>,
    bucket: Seq<char>,
    key: Seq<char>,
    value: Seq<u8>,
)
    requires
        store_laws::describes(s, log),
        http::is_valid_bucket(bucket),
        http::is_safe_key_text(key),
        !bucket.contains(' '),
        !key.contains(' '),
        value.len() <= server::MAX_BODY,
        head_fits(Method::Put, bucket, key, value.len()),
        head_fits(Method::Get, bucket, key, 0),
    ensures
        ({
            let append = s.putting(bucket, key, value);
            let after = s.committed(append);
            let new_log = store_laws::written(log, append.offset, append.record);
            let put = run(request_events(Method::Put, bucket, key, value));
            let get = run(request_events(Method::Get, bucket, key, Seq::empty()));
            let found = store_laws::read(after, new_log, bucket, key);
            &&& put.1 == ActionView::Put { bucket, key, value }
            &&& store::encodable(append.key, value)
            &&& put.0.next(EventView::Stored).1 matches ActionView::Respond { status, body }
            &&& client::done_of(http::message(http::status_line(status), body)) == Ok::<
                (),
                ClientErrorView,
            >(())
            &&& get.1 == ActionView::Get { bucket, key }
            &&& found == Some(value)
            &&& get.0.next(EventView::Found(found.unwrap())).1 matches ActionView::Respond {
                status: s2,
                body: b2,
            }
            &&& client::value_of(http::message(http::status_line(s2), b2)) == Ok::<
                Option<Seq<u8>>,
                ClientErrorView,
            >(Some(value))
        }),
{
    law_request_reaches_store(Method::Put, bucket, key, value);
    law_request_reaches_store(Method::Get, bucket, key, Seq::empty());
    store_laws::law_index_in_bounds(s, log);
    store_laws::law_read_after_put(s, log, bucket, key, value);
    law_client_understands_server(value);
}

/// What a client deletes is gone for every client: the delete reaches the
/// store, and the store has a record for it; once the record is written and committed, the store reads nothing;
/// and the answer to a get is understood as no value.
pub proof fn law_delete_then_get_over_http(
    s: StoreView,
    log: Seq<u8>,
    bucket: Seq<char>,
    key: Seq<char>,
)
    requires
        store_laws::describes(s, log),
        http::is_valid_bucket(bucket),
        http::is_safe_key_text(key),
        !bucket.contains(' '),
        !key.contains(' '),
        head_fits(Method::Delete, bucket, key, 0),
        head_fits(Method::Get, bucket, key, 0),
    ensures
        ({
            let append = s.deleting(bucket, key);
            let after = s.committed(append);
            let new_log = store_laws::written(log, append.offset, append.record);
            let delete = run(request_events(Method::Delete, bucket, key, Seq::empty()));
            let get = run(request_events(Method::Get, bucket, key, Seq::empty()));
            &&& delete.1 == ActionView::Delete { bucket, key }
            &&& store::encodable(append.key, Seq::empty())
            &&& delete.0.next(EventView::Deleted).1 matches ActionView::Respond { status, body }
            &&& client::done_of(http::message(http::status_line(status), body)) == Ok::<
                (),
                ClientErrorView,
            >(())
            &&& get.1 == ActionView::Get { bucket, key }
            &&& store_laws::read(after, new_log, bucket, key) is None
            &&& get.0.next(EventView::Missing).1 matches ActionView::Respond {
                status: s2,
                body: b2,
            }
            &&& client::value_of(http::message(http::status_line(s2), b2)) == Ok::<
                Option<Seq<u8>>,
                ClientErrorView,
            >(None)
        }),
{
    law_request_reaches_store(Method::Delete, bucket, key, Seq::empty());
    law_request_reaches_store(Method::Get, bucket, key, Seq::empty());
    store_laws::law_index_in_bounds(s, log);
    store_laws::law_read_after_delete(s, log, bucket, key);
    law_client_understands_server(Seq::empty());
}

/// A refusal reaches the client as an error with the status that the server
/// gave, never as a value or as done.
pub proof fn law_client_sees_refusal(status: u16, body: Seq<u8>)
    requires
        body.len() <= usize::MAX,
    ensures
        !(200 <= status < 300) ==> client::done_of(
            http::message(http::status_line(status), body),
        ) == Err::<(), ClientErrorView>(ClientErrorView::UnexpectedStatus(status)),
        status != 200 && status != 404 ==> client::value_of(
            http::message(http::status_line(status), body),
        ) == Err::<Option<Seq<u8>>, ClientErrorView>(ClientErrorView::UnexpectedStatus(status)),
{
    client_laws::law_answer_round_trip(status, body);
}

/// The client receives every answer whole whose value is within the limit of a
/// body.
pub proof fn law_answer_fits(status: u16, body: Seq<u8>)
    requires
        body.len() <= server::MAX_BODY,
    ensures
        http::message(http::status_line(status), body).len() <= client::MAX_RESPONSE,
{
    reveal_strlit("\r\n");
    reveal_strlit("Content-Length: ");
    reveal_strlit("Connection: close");
    client_laws::lemma_response_head_end(status, body);
    http_laws::lemma_status_line_plain(status);
    reveal_with_fuel(text::decimal, 9);
    assert(text::decimal(body.len()).len() <= 8);
}

/// No two paths lead to the same place in the store.
pub proof fn law_paths_do_not_collide(path1: Seq<char>, path2: Seq<char>)
    requires
        http::target_of(path1) is Some,
        http::target_of(path2) is Some,
        ({
            let t1 = http::target_of(path1).unwrap();
            let t2 = http::target_of(path2).unwrap();
            store::composite_key(t1.bucket, t1.key) == store::composite_key(t2.bucket, t2.key)
        }),
    ensures
        path1 == path2,
{
    let t1 = http::target_of(path1).unwrap();
    let t2 = http::target_of(path2).unwrap();
    http_laws::law_target_has_no_nul(path1);
    http_laws::law_target_has_no_nul(path2);
    store_laws::law_composite_key_is_unique(t1.bucket, t1.key, t2.bucket, t2.key);
    http_laws::law_target(path1, t1.bucket, t1.key);
    http_laws::law_target(path2, t2.bucket, t2.key);
}

} // verus!
