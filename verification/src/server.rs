//! The server's side of an exchange, as a machine: it says what to do next on
//! the connection or the store, and is told what came of it. One connection
//! carries one request.

use vstd::prelude::*;
use vstd::utf8::*;

use crate::http;
use crate::http::{Method, ParseError, ParseErrorView, RequestHead, RequestHeadView};

verus! {

/// The number of bytes that a body may have.
pub const MAX_BODY: usize = 64 * 1024 * 1024;

/// The number of bytes that request line and headers may have together.
pub const MAX_HEADER: u64 = 16 * 1024;

/// What the server is to do next.
pub enum Action {
    /// Read one line, of at most `limit` bytes.
    ReadLine { limit: u64 },
    /// Read exactly so many bytes of body.
    ReadBody(usize),
    /// Store a value.
    Put { bucket: String, key: String, value: Vec<u8> },
    /// Look a value up.
    Get { bucket: String, key: String },
    /// Remove a value.
    Delete { bucket: String, key: String },
    /// Send a response, and close the connection.
    Respond { status: u16, body: Vec<u8> },
    /// Close the connection without a word.
    Close,
}

/// What came of the last action.
pub enum Event {
    /// A line was read, its line ending with it.
    Line(String),
    /// There was nothing more to read, or the limit was reached.
    EndOfInput,
    /// The body was read.
    Body(Vec<u8>),
    /// The value was stored.
    Stored,
    /// The value was found.
    Found(Vec<u8>),
    /// There is no such value.
    Missing,
    /// The value was removed.
    Deleted,
}

/// Where a connection stands.
pub enum Session {
    /// The head is being read: the lines so far, and how many bytes may follow.
    Head { text: String, budget: u64 },
    /// The body is being read.
    Body { request: RequestHead },
    /// The store is at work on a put.
    Putting,
    /// The store is at work on a get.
    Getting,
    /// The store is at work on a delete.
    Deleting,
    /// The connection is closed, or about to be.
    Closed,
}

/// The mathematical value of an [`Action`].
pub enum ActionView {
    ReadLine { limit: nat },
    ReadBody(nat),
    Put { bucket: Seq<char>, key: Seq<char>, value: Seq<u8> },
    Get { bucket: Seq<char>, key: Seq<char> },
    Delete { bucket: Seq<char>, key: Seq<char> },
    Respond { status: u16, body: Seq<u8> },
    Close,
}

/// The mathematical value of an [`Event`].
pub enum EventView {
    Line(Seq<char>),
    EndOfInput,
    Body(Seq<u8>),
    Stored,
    Found(Seq<u8>),
    Missing,
    Deleted,
}

/// The mathematical value of a [`Session`].
pub enum SessionView {
    Head { text: Seq<char>, budget: nat },
    Body { request: RequestHeadView },
    Putting,
    Getting,
    Deleting,
    Closed,
}

impl View for Action {
    type V = ActionView;

    open spec fn view(&self) -> ActionView {
        match *self {
            Action::ReadLine { limit } => ActionView::ReadLine { limit: limit as nat },
            Action::ReadBody(n) => ActionView::ReadBody(n as nat),
            Action::Put { bucket, key, value } => ActionView::Put {
                bucket: bucket@,
                key: key@,
                value: value@,
            },
            Action::Get { bucket, key } => ActionView::Get { bucket: bucket@, key: key@ },
            Action::Delete { bucket, key } => ActionView::Delete { bucket: bucket@, key: key@ },
            Action::Respond { status, body } => ActionView::Respond { status, body: body@ },
            Action::Close => ActionView::Close,
        }
    }
}

impl View for Event {
    type V = EventView;

    open spec fn view(&self) -> EventView {
        match *self {
            Event::Line(line) => EventView::Line(line@),
            Event::EndOfInput => EventView::EndOfInput,
            Event::Body(body) => EventView::Body(body@),
            Event::Stored => EventView::Stored,
            Event::Found(value) => EventView::Found(value@),
            Event::Missing => EventView::Missing,
            Event::Deleted => EventView::Deleted,
        }
    }
}

impl View for Session {
    type V = SessionView;

    open spec fn view(&self) -> SessionView {
        match *self {
            Session::Head { text, budget } => SessionView::Head {
                text: text@,
                budget: budget as nat,
            },
            Session::Body { request } => SessionView::Body { request: request@ },
            Session::Putting => SessionView::Putting,
            Session::Getting => SessionView::Getting,
            Session::Deleting => SessionView::Deleting,
            Session::Closed => SessionView::Closed,
        }
    }
}

/// The answer with a status and a text, after which the connection is closed.
pub open spec fn reply(status: u16, text: Seq<char>) -> (SessionView, ActionView) {
    (SessionView::Closed, ActionView::Respond { status, body: encode_utf8(text) })
}

/// A line that ends the head.
pub open spec fn is_empty_line(line: Seq<char>) -> bool {
    line == "\r\n"@ || line == "\n"@
}

/// What follows once the head is complete: a head that cannot be served is
/// answered, and for any other the body is read.
pub open spec fn head_complete(text: Seq<char>) -> (SessionView, ActionView) {
    match http::request_head(text) {
        Err(ParseErrorView::UnsupportedMethod(_))
        | Err(ParseErrorView::UnsupportedTransferEncoding) => reply(501, "not implemented"@),
        Err(_) => reply(400, "bad request"@),
        Ok(request) => if request.content_length > MAX_BODY {
            reply(413, "payload too large"@)
        } else {
            (SessionView::Body { request }, ActionView::ReadBody(request.content_length))
        },
    }
}

/// What follows once the body is there: the path names the object, and the
/// method what to do with it.
pub open spec fn body_complete(request: RequestHeadView, body: Seq<u8>) -> (
    SessionView,
    ActionView,
) {
    match http::target_of(request.path) {
        None => reply(400, "path must be /{bucket}/{key}"@),
        Some(t) => match request.method {
            Method::Put => (
                SessionView::Putting,
                ActionView::Put { bucket: t.bucket, key: t.key, value: body },
            ),
            Method::Get => (
                SessionView::Getting,
                ActionView::Get { bucket: t.bucket, key: t.key },
            ),
            Method::Delete => (
                SessionView::Deleting,
                ActionView::Delete { bucket: t.bucket, key: t.key },
            ),
        },
    }
}

impl SessionView {
    /// The events that can come of the action last asked for.
    pub open spec fn expects(self, event: EventView) -> bool {
        match self {
            SessionView::Head { text, budget } => match event {
                EventView::Line(line) => encode_utf8(line).len() <= budget,
                EventView::EndOfInput => true,
                _ => false,
            },
            SessionView::Body { request } => match event {
                EventView::Body(body) => body.len() == request.content_length,
                _ => false,
            },
            SessionView::Putting => event is Stored,
            SessionView::Getting => event is Found || event is Missing,
            SessionView::Deleting => event is Deleted,
            SessionView::Closed => false,
        }
    }

    /// What an event leads to: the state after it, and the next action.
    pub open spec fn next(self, event: EventView) -> (SessionView, ActionView) {
        match (self, event) {
            (SessionView::Head { text, budget }, EventView::Line(line)) => if is_empty_line(line) {
                head_complete(text)
            } else {
                let left = (budget - encode_utf8(line).len()) as nat;
                (
                    SessionView::Head { text: text + line, budget: left },
                    ActionView::ReadLine { limit: left },
                )
            },
            (SessionView::Head { text, budget }, EventView::EndOfInput) => if text.len() == 0 {
                (SessionView::Closed, ActionView::Close)
            } else {
                reply(400, "header too large or incomplete"@)
            },
            (SessionView::Body { request }, EventView::Body(body)) => body_complete(request, body),
            (SessionView::Putting, EventView::Stored) => (
                SessionView::Closed,
                ActionView::Respond { status: 200, body: Seq::empty() },
            ),
            (SessionView::Getting, EventView::Found(value)) => (
                SessionView::Closed,
                ActionView::Respond { status: 200, body: value },
            ),
            (SessionView::Getting, EventView::Missing) => reply(404, "not found"@),
            (SessionView::Deleting, EventView::Deleted) => (
                SessionView::Closed,
                ActionView::Respond { status: 204, body: Seq::empty() },
            ),
            _ => (SessionView::Closed, ActionView::Close),
        }
    }
}

/// The answer with a status and a text.
fn respond(status: u16, text: &str) -> (r: (Session, Action))
    ensures
        (r.0@, r.1@) == reply(status, text@),
{
    (Session::Closed, Action::Respond { status, body: text.as_bytes_vec() })
}

/// What follows once the head is complete.
fn on_head(text: &str) -> (r: (Session, Action))
    ensures
        (r.0@, r.1@) == head_complete(text@),
{
    match http::parse_head(text) {
        Err(e) => {
            match e {
                ParseError::UnsupportedMethod(_) => respond(501, "not implemented"),
                ParseError::UnsupportedTransferEncoding => respond(501, "not implemented"),
                _ => respond(400, "bad request"),
            }
        },
        Ok(request) => {
            if request.content_length > MAX_BODY {
                return respond(413, "payload too large");
            }
            let length: usize = request.content_length;
            (Session::Body { request }, Action::ReadBody(length))
        },
    }
}

/// What follows once the body is there.
fn on_body(request: RequestHead, body: Vec<u8>) -> (r: (Session, Action))
    ensures
        (r.0@, r.1@) == body_complete(request@, body@),
{
    match http::parse_target(request.path.as_str()) {
        None => respond(400, "path must be /{bucket}/{key}"),
        Some(t) => {
            match request.method {
                Method::Put => (
                    Session::Putting,
                    Action::Put { bucket: t.bucket, key: t.key, value: body },
                ),
                Method::Get => (Session::Getting, Action::Get { bucket: t.bucket, key: t.key }),
                Method::Delete => (
                    Session::Deleting,
                    Action::Delete { bucket: t.bucket, key: t.key },
                ),
            }
        },
    }
}

/// The start of a connection: the first line is to be read.
pub fn begin() -> (r: (Session, Action))
    ensures
        r.0@ == (SessionView::Head { text: Seq::empty(), budget: MAX_HEADER as nat }),
        r.1@ == (ActionView::ReadLine { limit: MAX_HEADER as nat }),
{
    (
        Session::Head { text: String::new(), budget: MAX_HEADER },
        Action::ReadLine { limit: MAX_HEADER },
    )
}

/// What an event leads to: the state after it, and the next action.
pub fn step(session: Session, event: Event) -> (r: (Session, Action))
    requires
        session@.expects(event@),
    ensures
        (r.0@, r.1@) == session@.next(event@),
{
    match session {
        Session::Head { text, budget } => match event {
            Event::Line(line) => {
                if line == "\r\n".to_owned() || line == "\n".to_owned() {
                    on_head(text.as_str())
                } else {
                    let left: u64 = budget - line.as_str().as_bytes().len() as u64;
                    let mut text = text;
                    text.append(line.as_str());
                    (Session::Head { text, budget: left }, Action::ReadLine { limit: left })
                }
            },
            _ => {
                if text.as_str().is_empty() {
                    (Session::Closed, Action::Close)
                } else {
                    respond(400, "header too large or incomplete")
                }
            },
        },
        Session::Body { request } => match event {
            Event::Body(body) => on_body(request, body),
            _ => (Session::Closed, Action::Close),
        },
        Session::Putting => {
            let body: Vec<u8> = Vec::new();
            assert(body@ == Seq::<u8>::empty());
            (Session::Closed, Action::Respond { status: 200, body })
        },
        Session::Getting => match event {
            Event::Found(body) => (Session::Closed, Action::Respond { status: 200, body }),
            _ => respond(404, "not found"),
        },
        Session::Deleting => {
            let body: Vec<u8> = Vec::new();
            assert(body@ == Seq::<u8>::empty());
            (Session::Closed, Action::Respond { status: 204, body })
        },
        Session::Closed => (Session::Closed, Action::Close),
    }
}

} // verus!
