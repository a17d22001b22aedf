//! The client's side of an exchange with the store: the request to send, and
//! what the answer means. The server closes the connection after each answer,
//! so an answer is everything that was received on it.

use vstd::prelude::*;
use vstd::utf8::*;

use crate::http;
use crate::http::{Method, ParseError, ParseErrorView};
use crate::text;

verus! {

/// The number of bytes of an answer to receive at most: the largest body that
/// the server takes, and room for the head.
pub const MAX_RESPONSE: u64 = 64 * 1024 * 1024 + 4 * 1024;

/// Why an answer was not taken.
#[derive(Debug, Clone, PartialEq, Eq)]
pub enum ClientError {
    /// The empty line after the head is missing.
    NoHeaderTerminator,
    /// The head is not UTF-8.
    NonUtf8Head,
    /// The head was not understood.
    BadHead(ParseError),
    /// The connection ended before the declared length.
    Truncated { available: usize, expected: usize },
    /// The status is none that the operation allows.
    UnexpectedStatus(u16),
}

/// The mathematical value of a [`ClientError`].
pub enum ClientErrorView {
    NoHeaderTerminator,
    NonUtf8Head,
    BadHead(ParseErrorView),
    Truncated { available: nat, expected: nat },
    UnexpectedStatus(u16),
}

impl View for ClientError {
    type V = ClientErrorView;

    open spec fn view(&self) -> ClientErrorView {
        match *self {
            ClientError::NoHeaderTerminator => ClientErrorView::NoHeaderTerminator,
            ClientError::NonUtf8Head => ClientErrorView::NonUtf8Head,
            ClientError::BadHead(e) => ClientErrorView::BadHead(e@),
            ClientError::Truncated { available, expected } => ClientErrorView::Truncated {
                available: available as nat,
                expected: expected as nat,
            },
            ClientError::UnexpectedStatus(status) => ClientErrorView::UnexpectedStatus(status),
        }
    }
}

impl ClientErrorView {
    /// The message for a person to read.
    pub open spec fn message(self) -> Seq<char> {
        match self {
            ClientErrorView::NoHeaderTerminator => "no header terminator"@,
            ClientErrorView::NonUtf8Head => "non-utf8 response head"@,
            ClientErrorView::BadHead(e) => e.message(),
            ClientErrorView::Truncated { available, expected } => "body truncated: got "@
                + text::decimal(available) + ", expected "@ + text::decimal(expected),
            ClientErrorView::UnexpectedStatus(status) => "unexpected HTTP status: "@
                + text::decimal(status as nat),
        }
    }
}

impl ClientError {
    /// The message for a person to read.
    pub fn to_string(&self) -> (s: String)
        ensures
            s@ == self@.message(),
    {
        match self {
            ClientError::NoHeaderTerminator => "no header terminator".to_owned(),
            ClientError::NonUtf8Head => "non-utf8 response head".to_owned(),
            ClientError::BadHead(e) => e.to_string(),
            ClientError::Truncated { available, expected } => {
                let mut s = "body truncated: got ".to_owned();
                text::push_decimal(&mut s, *available);
                s.append(", expected ");
                text::push_decimal(&mut s, *expected);
                s
            },
            ClientError::UnexpectedStatus(status) => {
                let mut s = "unexpected HTTP status: ".to_owned();
                text::push_decimal(&mut s, *status as usize);
                s
            },
        }
    }
}

// ---------------------------------------------------------------------------
// Answers
// ---------------------------------------------------------------------------

/// The four bytes that end a head stand at the start.
pub open spec fn starts_with_terminator(raw: Seq<u8>) -> bool {
    raw.len() >= 4 && raw[0] == 13 && raw[1] == 10 && raw[2] == 13 && raw[3] == 10
}

/// The offset just after the first CRLF CRLF.
pub open spec fn header_end(raw: Seq<u8>) -> Option<nat>
    decreases raw.len(),
{
    if raw.len() < 4 {
        None
    } else if starts_with_terminator(raw) {
        Some(4)
    } else {
        match header_end(raw.drop_first()) {
            Some(end) => Some(end + 1),
            None => None,
        }
    }
}

/// Status and body of an answer.
pub struct AnswerView {
    pub status: u16,
    pub body: Seq<u8>,
}

/// What the bytes of an answer say: the head up to the first empty line, and as
/// many bytes behind it as the head declares.
pub open spec fn answer(raw: Seq<u8>) -> Result<AnswerView, ClientErrorView> {
    match header_end(raw) {
        None => Err(ClientErrorView::NoHeaderTerminator),
        Some(end) => if !valid_utf8(raw.take(end as int)) {
            Err(ClientErrorView::NonUtf8Head)
        } else {
            match http::response_head(decode_utf8(raw.take(end as int))) {
                Err(e) => Err(ClientErrorView::BadHead(e)),
                Ok(head) => {
                    let available = (raw.len() - end) as nat;
                    if available < head.content_length {
                        Err(
                            ClientErrorView::Truncated {
                                available,
                                expected: head.content_length,
                            },
                        )
                    } else {
                        Ok(
                            AnswerView {
                                status: head.status as u16,
                                body: raw.subrange(end as int, (end + head.content_length) as int),
                            },
                        )
                    }
                },
            }
        },
    }
}

/// Only a status from 200 to 299 is a success.
pub open spec fn success(status: u16) -> Result<(), ClientErrorView> {
    if 200 <= status < 300 {
        Ok(())
    } else {
        Err(ClientErrorView::UnexpectedStatus(status))
    }
}

/// What an answer means where only success is expected.
pub open spec fn done_of(raw: Seq<u8>) -> Result<(), ClientErrorView> {
    match answer(raw) {
        Ok(a) => success(a.status),
        Err(e) => Err(e),
    }
}

/// What an answer means where a value is asked for: 200 brings the value, 404
/// says that there is none.
pub open spec fn value_of(raw: Seq<u8>) -> Result<Option<Seq<u8>>, ClientErrorView> {
    match answer(raw) {
        Ok(a) => if a.status == 200 {
            Ok(Some(a.body))
        } else if a.status == 404 {
            Ok(None)
        } else {
            Err(ClientErrorView::UnexpectedStatus(a.status))
        },
        Err(e) => Err(e),
    }
}

/// A result by the view of its error.
pub open spec fn done_view(r: Result<(), ClientError>) -> Result<(), ClientErrorView> {
    match r {
        Ok(()) => Ok(()),
        Err(e) => Err(e@),
    }
}

/// A result by the views of what it holds.
pub open spec fn value_view(r: Result<Option<Vec<u8>>, ClientError>) -> Result<
    Option<Seq<u8>>,
    ClientErrorView,
> {
    match r {
        Ok(Some(v)) => Ok(Some(v@)),
        Ok(None) => Ok(None),
        Err(e) => Err(e@),
    }
}

/// The offset just after the first CRLF CRLF, where the body starts.
pub fn find_header_end(buf: &[u8]) -> (end: Option<usize>)
    ensures
        match end {
            Some(end) => header_end(buf@) == Some(end as nat),
            None => header_end(buf@) is None,
        },
        end matches Some(e) ==> e <= buf@.len(),
{
    let n: usize = buf.len();
    let mut i: usize = 0;
    assert(buf@.skip(0) == buf@);
    while i < n && n - i >= 4
        invariant
            i <= n,
            n == buf@.len(),
            header_end(buf@) == (match header_end(buf@.skip(i as int)) {
                Some(end) => Some((end + i) as nat),
                None => None,
            }),
        decreases n - i,
    {
        let ghost here = buf@.skip(i as int);
        if buf[i] == 13 && buf[i + 1] == 10 && buf[i + 2] == 13 && buf[i + 3] == 10 {
            assert(starts_with_terminator(here));
            return Some(i + 4);
        }
        proof {
            assert(!starts_with_terminator(here));
            assert(here.drop_first() == buf@.skip(i + 1));
        }
        i = i + 1;
    }
    None
}

/// Status and body of an answer, from all the bytes that were received.
pub fn parse_answer(raw: &[u8]) -> (r: Result<(u16, Vec<u8>), ClientError>)
    ensures
        match r {
            Ok((status, body)) => answer(raw@) == Ok::<AnswerView, ClientErrorView>(
                AnswerView { status, body: body@ },
            ),
            Err(e) => answer(raw@) == Err::<AnswerView, ClientErrorView>(e@),
        },
{
    let body_start: usize = match find_header_end(raw) {
        None => {
            return Err(ClientError::NoHeaderTerminator);
        },
        Some(end) => end,
    };
    let head_bytes = vstd::slice::slice_subrange(raw, 0, body_start);
    assert(head_bytes@ == raw@.take(body_start as int));
    let head = match text::str_from_utf8(head_bytes) {
        None => {
            return Err(ClientError::NonUtf8Head);
        },
        Some(head) => head,
    };
    let parsed = match http::parse_response_head(head) {
        Err(e) => {
            return Err(ClientError::BadHead(e));
        },
        Ok(parsed) => parsed,
    };
    let available: usize = raw.len() - body_start;
    let expected: usize = parsed.content_length;
    if available < expected {
        return Err(ClientError::Truncated { available, expected });
    }
    let body = vstd::slice::slice_to_vec(
        vstd::slice::slice_subrange(raw, body_start, body_start + expected),
    );
    Ok((parsed.status, body))
}

/// Takes a status from 200 to 299 for a success, and any other for an error.
pub fn expect_success(status: u16) -> (r: Result<(), ClientError>)
    ensures
        done_view(r) == success(status),
{
    if 200 <= status && status < 300 {
        Ok(())
    } else {
        Err(unexpected_status(status))
    }
}

/// The error for a status that the operation does not allow.
fn unexpected_status(status: u16) -> (e: ClientError)
    ensures
        e@ == ClientErrorView::UnexpectedStatus(status),
{
    ClientError::UnexpectedStatus(status)
}

// ---------------------------------------------------------------------------
// The client
// ---------------------------------------------------------------------------

/// A client of the store at one address, "host:port". It connects anew for
/// every call.
pub struct S3Client {
    addr: String,
}

/// A request that is to be sent.
pub struct Call {
    /// Where to connect to.
    pub addr: String,
    /// What to send.
    pub request: Vec<u8>,
}

/// The mathematical value of a [`Call`].
pub struct CallView {
    pub addr: Seq<char>,
    pub request: Seq<u8>,
}

impl View for Call {
    type V = CallView;

    open spec fn view(&self) -> CallView {
        CallView { addr: self.addr@, request: self.request@ }
    }
}

/// The address of the store.
impl View for S3Client {
    type V = Seq<char>;

    closed spec fn view(&self) -> Seq<char> {
        self.addr@
    }
}

/// The bytes of a request for an object.
pub open spec fn object_request(
    method: Method,
    bucket: Seq<char>,
    key: Seq<char>,
    body: Seq<u8>,
) -> Seq<u8> {
    http::message(http::request_line(method, http::object_path(bucket, key)), body)
}

impl S3Client {
    /// A client of the store at `addr`. Nothing is connected yet.
    pub fn new(addr: String) -> (client: S3Client)
        ensures
            client@ == addr@,
    {
        S3Client { addr }
    }

    /// The request for an object.
    fn request(&self, method: Method, bucket: &str, key: &str, body: &[u8]) -> (call: Call)
        ensures
            call@ == (CallView {
                addr: self@,
                request: object_request(method, bucket@, key@, body@),
            }),
    {
        let mut path = "/".to_owned();
        path.append(bucket);
        path.append("/");
        path.append(key);
        Call { addr: self.addr.clone(), request: http::build_request(method, path.as_str(), body) }
    }

    /// The request that stores `value`. Its answer goes to
    /// [`S3Client::put_answer`].
    pub fn put(&self, bucket: &str, key: &str, value: &[u8]) -> (call: Call)
        ensures
            call@ == (CallView {
                addr: self@,
                request: object_request(Method::Put, bucket@, key@, value@),
            }),
    {
        self.request(Method::Put, bucket, key, value)
    }

    /// The request for a value. Its answer goes to [`S3Client::get_answer`].
    pub fn get(&self, bucket: &str, key: &str) -> (call: Call)
        ensures
            call@ == (CallView {
                addr: self@,
                request: object_request(Method::Get, bucket@, key@, Seq::empty()),
            }),
    {
        let empty: Vec<u8> = Vec::new();
        assert(empty@ == Seq::<u8>::empty());
        self.request(Method::Get, bucket, key, empty.as_slice())
    }

    /// The request that removes an object. Its answer goes to
    /// [`S3Client::delete_answer`].
    pub fn delete(&self, bucket: &str, key: &str) -> (call: Call)
        ensures
            call@ == (CallView {
                addr: self@,
                request: object_request(Method::Delete, bucket@, key@, Seq::empty()),
            }),
    {
        let empty: Vec<u8> = Vec::new();
        assert(empty@ == Seq::<u8>::empty());
        self.request(Method::Delete, bucket, key, empty.as_slice())
    }

    /// What the answer to a put means.
    pub fn put_answer(raw: &[u8]) -> (r: Result<(), ClientError>)
        ensures
            done_view(r) == done_of(raw@),
    {
        match parse_answer(raw) {
            Ok((status, _body)) => expect_success(status),
            Err(e) => Err(e),
        }
    }

    /// What the answer to a get means: the value, or `None` where there is none.
    pub fn get_answer(raw: &[u8]) -> (r: Result<Option<Vec<u8>>, ClientError>)
        ensures
            value_view(r) == value_of(raw@),
    {
        match parse_answer(raw) {
            Ok((status, body)) => {
                if status == 200 {
                    Ok(Some(body))
                } else if status == 404 {
                    Ok(None)
                } else {
                    Err(unexpected_status(status))
                }
            },
            Err(e) => Err(e),
        }
    }

    /// What the answer to a delete means.
    pub fn delete_answer(raw: &[u8]) -> (r: Result<(), ClientError>)
        ensures
            done_view(r) == done_of(raw@),
    {
        match parse_answer(raw) {
            Ok((status, _body)) => expect_success(status),
            Err(e) => Err(e),
        }
    }
}

} // verus!
