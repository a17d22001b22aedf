//! HTTP/1.1 messages as far as the store speaks them: a request line or status
//! line, `Content-Length`, and a body of that many bytes. Everything here turns
//! bytes into values or values into bytes; sockets are the caller's.

use vstd::prelude::*;
use vstd::utf8::*;

use crate::text;

verus! {

/// The methods the store answers.
#[derive(Debug, Clone, Copy, PartialEq, Eq, Structural)]
pub enum Method {
    Put,
    Get,
    Delete,
}

/// What the request line and the headers say. The body is not part of it.
#[derive(Debug, Clone, PartialEq, Eq)]
pub struct RequestHead {
    pub method: Method,
    pub path: String,
    /// The number of bytes in the body, 0 where no header states it.
    pub content_length: usize,
}

/// What the status line and the headers of a response say.
#[derive(Debug, Clone, Copy, PartialEq, Eq)]
pub struct ResponseHead {
    pub status: u16,
    /// The number of bytes in the body, 0 where no header states it.
    pub content_length: usize,
}

/// The object that a path `/{bucket}/{key}` names. The key may hold slashes.
#[derive(Debug, Clone, PartialEq, Eq)]
pub struct Target {
    pub bucket: String,
    pub key: String,
}

/// Why a message was not understood.
#[derive(Debug, Clone, PartialEq, Eq)]
pub enum ParseError {
    /// The request line is not of the form `METHOD SP PATH SP VERSION`, or the
    /// status line has no status behind its first space.
    MalformedRequestLine,
    /// The method is none of the supported ones.
    UnsupportedMethod(String),
    /// The value of `Content-Length` is not a number.
    InvalidContentLength,
    /// `Content-Length` occurs more than once, so the end of the body is in
    /// doubt.
    ConflictingContentLength,
    /// `Transfer-Encoding` is not supported, so the end of the body is unknown.
    UnsupportedTransferEncoding,
}

/// The mathematical value of a [`RequestHead`].
pub struct RequestHeadView {
    pub method: Method,
    pub path: Seq<char>,
    pub content_length: nat,
}

/// The mathematical value of a [`ResponseHead`].
pub struct ResponseHeadView {
    pub status: nat,
    pub content_length: nat,
}

/// The mathematical value of a [`Target`].
pub struct TargetView {
    pub bucket: Seq<char>,
    pub key: Seq<char>,
}

/// The mathematical value of a [`ParseError`].
pub enum ParseErrorView {
    MalformedRequestLine,
    UnsupportedMethod(Seq<char>),
    InvalidContentLength,
    ConflictingContentLength,
    UnsupportedTransferEncoding,
}

impl View for RequestHead {
    type V = RequestHeadView;

    open spec fn view(&self) -> RequestHeadView {
        RequestHeadView {
            method: self.method,
            path: self.path@,
            content_length: self.content_length as nat,
        }
    }
}

impl View for ResponseHead {
    type V = ResponseHeadView;

    open spec fn view(&self) -> ResponseHeadView {
        ResponseHeadView {
            status: self.status as nat,
            content_length: self.content_length as nat,
        }
    }
}

impl View for Target {
    type V = TargetView;

    open spec fn view(&self) -> TargetView {
        TargetView { bucket: self.bucket@, key: self.key@ }
    }
}

impl View for ParseError {
    type V = ParseErrorView;

    open spec fn view(&self) -> ParseErrorView {
        match *self {
            ParseError::MalformedRequestLine => ParseErrorView::MalformedRequestLine,
            ParseError::UnsupportedMethod(m) => ParseErrorView::UnsupportedMethod(m@),
            ParseError::InvalidContentLength => ParseErrorView::InvalidContentLength,
            ParseError::ConflictingContentLength => ParseErrorView::ConflictingContentLength,
            ParseError::UnsupportedTransferEncoding => ParseErrorView::UnsupportedTransferEncoding,
        }
    }
}

/// A result by the views of what it holds.
pub open spec fn head_view(r: Result<RequestHead, ParseError>) -> Result<
    RequestHeadView,
    ParseErrorView,
> {
    match r {
        Ok(head) => Ok(head@),
        Err(e) => Err(e@),
    }
}

/// A result by the views of what it holds.
pub open spec fn response_view(r: Result<ResponseHead, ParseError>) -> Result<
    ResponseHeadView,
    ParseErrorView,
> {
    match r {
        Ok(head) => Ok(head@),
        Err(e) => Err(e@),
    }
}

/// An optional target by its view.
pub open spec fn target_view(t: Option<Target>) -> Option<TargetView> {
    match t {
        Some(target) => Some(target@),
        None => None,
    }
}

impl ParseErrorView {
    /// The message for a person to read.
    pub open spec fn message(self) -> Seq<char> {
        match self {
            ParseErrorView::MalformedRequestLine => "malformed request line"@,
            ParseErrorView::UnsupportedMethod(m) => "unsupported method: "@ + m,
            ParseErrorView::InvalidContentLength => "invalid content-length"@,
            ParseErrorView::ConflictingContentLength => "conflicting content-length"@,
            ParseErrorView::UnsupportedTransferEncoding => "unsupported transfer-encoding"@,
        }
    }
}

impl ParseError {
    /// The message for a person to read.
    pub fn to_string(&self) -> (s: String)
        ensures
            s@ == self@.message(),
    {
        match self {
            ParseError::MalformedRequestLine => "malformed request line".to_owned(),
            ParseError::UnsupportedMethod(m) => {
                let mut s = "unsupported method: ".to_owned();
                s.append(m.as_str());
                s
            },
            ParseError::InvalidContentLength => "invalid content-length".to_owned(),
            ParseError::ConflictingContentLength => "conflicting content-length".to_owned(),
            ParseError::UnsupportedTransferEncoding => "unsupported transfer-encoding".to_owned(),
        }
    }
}

// ---------------------------------------------------------------------------
// Lines and headers
// ---------------------------------------------------------------------------

/// A line without the carriage return at its end.
pub open spec fn strip_cr(line: Seq<char>) -> Seq<char> {
    if line.len() > 0 && line.last() == '\r' {
        line.drop_last()
    } else {
        line
    }
}

/// The lines of `head`: what stands between line feeds, without the carriage
/// return at the end.
pub open spec fn lines(head: Seq<char>) -> Seq<Seq<char>> {
    text::split(head, '\n').map_values(|line: Seq<char>| strip_cr(line))
}

/// The lines before the first empty one.
pub open spec fn header_block(ls: Seq<Seq<char>>) -> Seq<Seq<char>>
    decreases ls.len(),
{
    if ls.len() == 0 || ls[0].len() == 0 {
        Seq::empty()
    } else {
        seq![ls[0]] + header_block(ls.drop_first())
    }
}

/// The value of a header line whose name is `name` in any case, without the
/// white space around it.
pub open spec fn header_value(line: Seq<char>, name: Seq<char>) -> Option<Seq<char>> {
    match text::split_once(line, ':') {
        Some((n, v)) => if text::same_ignoring_ascii_case(text::trim(n), name) {
            Some(text::trim(v))
        } else {
            None
        },
        None => None,
    }
}

/// The value of a `Content-Length` line.
pub open spec fn content_length_header(line: Seq<char>) -> Option<Seq<char>> {
    header_value(line, "content-length"@)
}

/// The value of a `Transfer-Encoding` line.
pub open spec fn transfer_encoding_header(line: Seq<char>) -> Option<Seq<char>> {
    header_value(line, "transfer-encoding"@)
}

/// The length that the header lines declare, if any does, or the fault of the
/// first line that has one.
pub open spec fn declared_length(headers: Seq<Seq<char>>) -> Result<Option<nat>, ParseErrorView>
    decreases headers.len(),
{
    if headers.len() == 0 {
        Ok(None)
    } else {
        match declared_length(headers.drop_last()) {
            Err(e) => Err(e),
            Ok(seen) => match content_length_header(headers.last()) {
                Some(value) => match text::parse_at_most(value, usize::MAX as nat) {
                    None => Err(ParseErrorView::InvalidContentLength),
                    Some(n) => if seen is Some {
                        Err(ParseErrorView::ConflictingContentLength)
                    } else {
                        Ok(Some(n))
                    },
                },
                None => if transfer_encoding_header(headers.last()) is Some {
                    Err(ParseErrorView::UnsupportedTransferEncoding)
                } else {
                    Ok(seen)
                },
            },
        }
    }
}

/// The number of body bytes: the declared length, or 0.
pub open spec fn body_length(headers: Seq<Seq<char>>) -> Result<nat, ParseErrorView> {
    match declared_length(headers) {
        Ok(Some(n)) => Ok(n),
        Ok(None) => Ok(0),
        Err(e) => Err(e),
    }
}

/// The fault of a line stays the answer whatever lines follow.
proof fn lemma_declared_length_fault(headers: Seq<Seq<char>>, rest: Seq<Seq<char>>)
    requires
        declared_length(headers) is Err,
    ensures
        declared_length(headers + rest) == declared_length(headers),
    decreases rest.len(),
{
    if rest.len() == 0 {
        assert(headers + rest == headers);
    } else {
        lemma_declared_length_fault(headers, rest.drop_last());
        assert((headers + rest).drop_last() == headers + rest.drop_last());
    }
}

/// The lines of `head`, as in [`lines`].
fn head_lines(head: &str) -> (ls: Vec<Vec<char>>)
    ensures
        text::views(ls@) == lines(head@),
        ls@.len() >= 1,
{
    let chars = text::to_chars(head);
    let pieces = text::split_chars(&chars, '\n');
    proof {
        text::lemma_split_len(head@, '\n');
        assert(text::views(pieces@).len() == pieces@.len());
    }
    let mut ls: Vec<Vec<char>> = Vec::new();
    let mut i: usize = 0;
    while i < pieces.len()
        invariant
            i <= pieces@.len(),
            ls@.len() == i,
            forall|j: int| 0 <= j < i ==> (#[trigger] ls@[j])@ == strip_cr(pieces@[j]@),
        decreases pieces@.len() - i,
    {
        let piece = &pieces[i];
        let line = if piece.len() > 0 && piece[piece.len() - 1] == '\r' {
            text::sub_chars(piece, 0, piece.len() - 1)
        } else {
            text::sub_chars(piece, 0, piece.len())
        };
        assert(line@ == strip_cr(piece@));
        ls.push(line);
        i = i + 1;
    }
    assert forall|j: int| 0 <= j < text::views(ls@).len() implies #[trigger] text::views(ls@)[j] == lines(
        head@,
    )[j] by {
        assert(text::views(pieces@)[j] == pieces@[j]@);
        assert(ls@[j]@ == strip_cr(pieces@[j]@));
    }
    assert(text::views(ls@) == lines(head@));
    ls
}

/// The length that the header lines after the first line declare.
fn scan_headers(ls: &Vec<Vec<char>>) -> (r: Result<usize, ParseError>)
    requires
        ls@.len() >= 1,
    ensures
        match r {
            Ok(n) => body_length(header_block(text::views(ls@).skip(1))) == Ok::<nat, ParseErrorView>(
                n as nat,
            ),
            Err(e) => body_length(header_block(text::views(ls@).skip(1))) == Err::<nat, ParseErrorView>(
                e@,
            ),
        },
{
    let ghost all = text::views(ls@);
    let ghost block = header_block(all.skip(1));
    let mut seen: Option<usize> = None;
    let mut i: usize = 1;
    assert(all.subrange(1, 1) == Seq::<Seq<char>>::empty());
    assert(block == all.subrange(1, 1) + header_block(all.skip(1)));
    while i < ls.len() && ls[i].len() > 0
        invariant
            1 <= i <= ls@.len(),
            all == text::views(ls@),
            block == header_block(all.skip(1)),
            block == all.subrange(1, i as int) + header_block(all.skip(i as int)),
            declared_length(all.subrange(1, i as int)) == Ok::<Option<nat>, ParseErrorView>(
                match seen {
                    Some(n) => Some(n as nat),
                    None => None,
                },
            ),
        decreases ls@.len() - i,
    {
        let line = &ls[i];
        let ghost done = all.subrange(1, i as int);
        let ghost next = all.subrange(1, i + 1);
        proof {
            assert(all[i as int] == line@);
            assert(next.drop_last() == done);
            assert(next.last() == line@);
            assert(all.skip(i as int).drop_first() == all.skip(i + 1));
            assert(all.skip(i as int)[0] == line@);
            assert(block == next + header_block(all.skip(i + 1)));
            if declared_length(next) is Err {
                lemma_declared_length_fault(next, header_block(all.skip(i + 1)));
            }
        }
        match text::split_once_chars(line, ':') {
            None => {},
            Some((name, value)) => {
                let name = text::trim_chars(&name);
                if text::eq_ignore_ascii_case(&name, "content-length") {
                    let value = text::trim_chars(&value);
                    match text::parse_number(&value, usize::MAX) {
                        None => {
                            return Err(ParseError::InvalidContentLength);
                        },
                        Some(n) => {
                            if seen.is_some() {
                                return Err(ParseError::ConflictingContentLength);
                            }
                            seen = Some(n);
                        },
                    }
                } else if text::eq_ignore_ascii_case(&name, "transfer-encoding") {
                    return Err(ParseError::UnsupportedTransferEncoding);
                }
            },
        }
        i = i + 1;
    }
    proof {
        assert(header_block(all.skip(i as int)) == Seq::<Seq<char>>::empty()) by {
            if i < ls@.len() {
                assert(all.skip(i as int)[0] == ls@[i as int]@);
            }
        }
        assert(block == all.subrange(1, i as int));
    }
    match seen {
        Some(n) => Ok(n),
        None => Ok(0),
    }
}

// ---------------------------------------------------------------------------
// Requests
// ---------------------------------------------------------------------------

impl Method {
    /// The method as it is written in a request line.
    pub open spec fn token(self) -> Seq<char> {
        match self {
            Method::Put => "PUT"@,
            Method::Get => "GET"@,
            Method::Delete => "DELETE"@,
        }
    }

    /// The method as it is written in a request line.
    pub fn name(self) -> (s: &'static str)
        ensures
            s@ == self.token(),
    {
        match self {
            Method::Put => "PUT",
            Method::Get => "GET",
            Method::Delete => "DELETE",
        }
    }
}

/// The supported method that `token` names.
pub open spec fn method_named(token: Seq<char>) -> Option<Method> {
    if token == "PUT"@ {
        Some(Method::Put)
    } else if token == "GET"@ {
        Some(Method::Get)
    } else if token == "DELETE"@ {
        Some(Method::Delete)
    } else {
        None
    }
}

/// The parts of a request line of the form `METHOD SP PATH SP VERSION`: three,
/// and none of them empty.
pub open spec fn is_request_line(parts: Seq<Seq<char>>) -> bool {
    parts.len() == 3 && parts[0].len() > 0 && parts[1].len() > 0 && parts[2].len() > 0
}

/// What the text of a request head says: the first line holds method, path and
/// version, parted by single spaces, and the header lines declare the length of
/// the body.
pub open spec fn request_head(head: Seq<char>) -> Result<RequestHeadView, ParseErrorView> {
    let ls = lines(head);
    let parts = text::split(ls[0], ' ');
    if !is_request_line(parts) {
        Err(ParseErrorView::MalformedRequestLine)
    } else {
        match method_named(parts[0]) {
            None => Err(ParseErrorView::UnsupportedMethod(parts[0])),
            Some(method) => match body_length(header_block(ls.skip(1))) {
                Err(e) => Err(e),
                Ok(content_length) => Ok(
                    RequestHeadView { method, path: parts[1], content_length },
                ),
            },
        }
    }
}

/// The supported method that `token` names.
fn find_method(token: &Vec<char>) -> (m: Option<Method>)
    ensures
        m == method_named(token@),
{
    if text::same_chars(token, &text::to_chars("PUT")) {
        Some(Method::Put)
    } else if text::same_chars(token, &text::to_chars("GET")) {
        Some(Method::Get)
    } else if text::same_chars(token, &text::to_chars("DELETE")) {
        Some(Method::Delete)
    } else {
        None
    }
}

/// Reads the head of a request: the request line and the header lines up to the
/// first empty line or the end. Lines end in CRLF or in LF.
pub fn parse_head(head: &str) -> (r: Result<RequestHead, ParseError>)
    ensures
        head_view(r) == request_head(head@),
{
    let ls = head_lines(head);
    let parts = text::split_chars(&ls[0], ' ');
    proof {
        assert(text::views(ls@)[0] == ls@[0]@);
        assert(text::views(parts@).len() == parts@.len());
    }
    if parts.len() != 3 {
        return Err(ParseError::MalformedRequestLine);
    }
    proof {
        assert(text::views(parts@)[0] == parts@[0]@);
        assert(text::views(parts@)[1] == parts@[1]@);
        assert(text::views(parts@)[2] == parts@[2]@);
    }
    if parts[0].len() == 0 || parts[1].len() == 0 || parts[2].len() == 0 {
        return Err(ParseError::MalformedRequestLine);
    }
    let method = match find_method(&parts[0]) {
        Some(m) => m,
        None => {
            return Err(ParseError::UnsupportedMethod(text::from_chars(&parts[0])));
        },
    };
    match scan_headers(&ls) {
        Err(e) => Err(e),
        Ok(content_length) => {
            let path = text::from_chars(&parts[1]);
            Ok(RequestHead { method, path, content_length })
        },
    }
}

// ---------------------------------------------------------------------------
// Paths
// ---------------------------------------------------------------------------

/// No control character occurs in `s`.
pub open spec fn is_safe_segment_text(s: Seq<char>) -> bool {
    forall|i: int| 0 <= i < s.len() ==> !text::is_control_char(#[trigger] s[i])
}

/// A segment of a path is not empty and is no relative reference.
pub open spec fn is_plain_segment(segment: Seq<char>) -> bool {
    segment.len() > 0 && segment != "."@ && segment != ".."@
}

/// A key is made of plain segments between slashes.
pub open spec fn is_safe_key_text(key: Seq<char>) -> bool {
    let segments = text::split(key, '/');
    is_safe_segment_text(key) && forall|i: int|
        0 <= i < segments.len() ==> is_plain_segment(#[trigger] segments[i])
}

/// A bucket is a single, safe, plain segment.
pub open spec fn is_valid_bucket(bucket: Seq<char>) -> bool {
    is_plain_segment(bucket) && !bucket.contains('/') && is_safe_segment_text(bucket)
}

/// The path that names an object.
pub open spec fn object_path(bucket: Seq<char>, key: Seq<char>) -> Seq<char> {
    "/"@ + bucket + "/"@ + key
}

/// The object that a path names: after the leading slash, the bucket runs up to
/// the next slash and the key is the rest. Both must be safe.
pub open spec fn target_of(path: Seq<char>) -> Option<TargetView> {
    if path.len() == 0 || path[0] != '/' {
        None
    } else {
        match text::split_once(path.skip(1), '/') {
            None => None,
            Some((bucket, key)) => if is_valid_bucket(bucket) && key.len() > 0 && is_safe_key_text(
                key,
            ) {
                Some(TargetView { bucket, key })
            } else {
                None
            },
        }
    }
}

/// Whether `s` is free of control characters.
fn is_safe_segment(s: &Vec<char>) -> (r: bool)
    ensures
        r == is_safe_segment_text(s@),
{
    let mut i: usize = 0;
    while i < s.len()
        invariant
            i <= s@.len(),
            forall|j: int| 0 <= j < i ==> !text::is_control_char(#[trigger] s@[j]),
        decreases s@.len() - i,
    {
        if text::control_char(s[i]) {
            assert(text::is_control_char(s@[i as int]));
            return false;
        }
        i = i + 1;
    }
    true
}

/// Whether `segment` is neither empty nor a relative reference.
fn is_plain(segment: &Vec<char>) -> (r: bool)
    ensures
        r == is_plain_segment(segment@),
{
    segment.len() > 0 && !text::same_chars(segment, &text::to_chars("."))
        && !text::same_chars(segment, &text::to_chars(".."))
}

/// Whether `key` is made of plain segments and free of control characters.
fn is_safe_key(key: &Vec<char>) -> (r: bool)
    ensures
        r == is_safe_key_text(key@),
{
    if !is_safe_segment(key) {
        return false;
    }
    let segments = text::split_chars(key, '/');
    assert(text::views(segments@).len() == segments@.len());
    let mut i: usize = 0;
    while i < segments.len()
        invariant
            i <= segments@.len(),
            text::views(segments@) == text::split(key@, '/'),
            text::views(segments@).len() == segments@.len(),
            forall|j: int|
                0 <= j < i ==> is_plain_segment(#[trigger] text::views(segments@)[j]),
        decreases segments@.len() - i,
    {
        assert(text::views(segments@)[i as int] == segments@[i as int]@);
        if !is_plain(&segments[i]) {
            assert(!is_plain_segment(text::split(key@, '/')[i as int]));
            return false;
        }
        i = i + 1;
    }
    true
}

/// The bucket and key that a path names, or `None` where it names no object or
/// one that is not safe.
pub fn parse_target(path: &str) -> (t: Option<Target>)
    ensures
        target_view(t) == target_of(path@),
{
    let chars = text::to_chars(path);
    if chars.len() == 0 || chars[0] != '/' {
        return None;
    }
    let rest = text::sub_chars(&chars, 1, chars.len());
    assert(rest@ == path@.skip(1));
    match text::split_once_chars(&rest, '/') {
        None => None,
        Some((bucket, key)) => {
            proof {
                lemma_before_first(rest@, '/');
            }
            if !is_plain(&bucket) || key.len() == 0 {
                return None;
            }
            if !is_safe_segment(&bucket) || !is_safe_key(&key) {
                return None;
            }
            Some(Target { bucket: text::from_chars(&bucket), key: text::from_chars(&key) })
        },
    }
}

/// What stands before the first separator does not hold it.
proof fn lemma_before_first(s: Seq<char>, sep: char)
    ensures
        text::split_once(s, sep) matches Some((before, after)) ==> !before.contains(sep),
{
    s.index_of_first_ensures(sep);
}

// ---------------------------------------------------------------------------
// Messages on the wire
// ---------------------------------------------------------------------------

/// The head of a message: its first line, the length of the body, the notice
/// that the connection closes, and the empty line.
pub open spec fn message_head(first: Seq<char>, length: nat) -> Seq<char> {
    first + "\r\n"@ + ("Content-Length: "@ + text::decimal(length)) + "\r\n"@
        + "Connection: close"@ + "\r\n"@ + "\r\n"@
}

/// The bytes of a message: its head in UTF-8, and the body.
pub open spec fn message(first: Seq<char>, body: Seq<u8>) -> Seq<u8> {
    encode_utf8(message_head(first, body.len())) + body
}

/// The phrase that stands beside a status code.
pub open spec fn reason(status: u16) -> Seq<char> {
    if status == 200 {
        "OK"@
    } else if status == 204 {
        "No Content"@
    } else if status == 400 {
        "Bad Request"@
    } else if status == 404 {
        "Not Found"@
    } else if status == 413 {
        "Payload Too Large"@
    } else if status == 500 {
        "Internal Server Error"@
    } else if status == 501 {
        "Not Implemented"@
    } else {
        "Status"@
    }
}

/// The first line of a response.
pub open spec fn status_line(status: u16) -> Seq<char> {
    "HTTP/1.1 "@ + text::decimal(status as nat) + " "@ + reason(status)
}

/// The first line of a request.
pub open spec fn request_line(method: Method, path: Seq<char>) -> Seq<char> {
    method.token() + " "@ + path + " HTTP/1.1"@
}

/// The phrase that stands beside a status code. A code without one of its own
/// gets "Status".
fn reason_phrase(status: u16) -> (s: &'static str)
    ensures
        s@ == reason(status),
{
    match status {
        200 => "OK",
        204 => "No Content",
        400 => "Bad Request",
        404 => "Not Found",
        413 => "Payload Too Large",
        500 => "Internal Server Error",
        501 => "Not Implemented",
        _ => "Status",
    }
}

/// The bytes of a message with the given first line and body.
fn build_message(first: String, body: &[u8]) -> (out: Vec<u8>)
    ensures
        out@ == message(first@, body@),
{
    let mut head = first;
    head.append("\r\n");
    let ghost line = head@;
    head.append("Content-Length: ");
    text::push_decimal(&mut head, body.len());
    assert(head@ == line + ("Content-Length: "@ + text::decimal(body@.len())));
    head.append("\r\n");
    head.append("Connection: close");
    head.append("\r\n");
    head.append("\r\n");
    let mut out: Vec<u8> = Vec::new();
    out.extend_from_slice(head.as_str().as_bytes());
    out.extend_from_slice(body);
    out
}

/// The bytes of a response: status line, `Content-Length`, `Connection: close`,
/// an empty line and the body.
pub fn build_response(status: u16, body: &[u8]) -> (out: Vec<u8>)
    ensures
        out@ == message(status_line(status), body@),
{
    let mut first = "HTTP/1.1 ".to_owned();
    text::push_decimal(&mut first, status as usize);
    first.append(" ");
    first.append(reason_phrase(status));
    build_message(first, body)
}

/// The bytes of a request: request line, `Content-Length`, `Connection: close`,
/// an empty line and the body.
pub fn build_request(method: Method, path: &str, body: &[u8]) -> (out: Vec<u8>)
    ensures
        out@ == message(request_line(method, path@), body@),
{
    let mut first = method.name().to_owned();
    first.append(" ");
    first.append(path);
    first.append(" HTTP/1.1");
    build_message(first, body)
}

/// What the text of a response head says: the second part of the first line is
/// the status, and the header lines declare the length of the body.
pub open spec fn response_head(head: Seq<char>) -> Result<ResponseHeadView, ParseErrorView> {
    let ls = lines(head);
    let parts = text::split(ls[0], ' ');
    if parts.len() < 2 {
        Err(ParseErrorView::MalformedRequestLine)
    } else {
        match text::parse_at_most(parts[1], u16::MAX as nat) {
            None => Err(ParseErrorView::MalformedRequestLine),
            Some(status) => match body_length(header_block(ls.skip(1))) {
                Err(e) => Err(e),
                Ok(content_length) => Ok(ResponseHeadView { status, content_length }),
            },
        }
    }
}

/// Reads the head of a response: the status line and the header lines up to the
/// first empty line or the end. Lines end in CRLF or in LF.
pub fn parse_response_head(head: &str) -> (r: Result<ResponseHead, ParseError>)
    ensures
        response_view(r) == response_head(head@),
{
    let ls = head_lines(head);
    let parts = text::split_chars(&ls[0], ' ');
    proof {
        assert(text::views(ls@)[0] == ls@[0]@);
        assert(text::views(parts@).len() == parts@.len());
    }
    if parts.len() < 2 {
        return Err(ParseError::MalformedRequestLine);
    }
    assert(text::views(parts@)[1] == parts@[1]@);
    let status = match text::parse_number(&parts[1], 65535) {
        None => {
            return Err(ParseError::MalformedRequestLine);
        },
        Some(n) => n as u16,
    };
    match scan_headers(&ls) {
        Err(e) => Err(e),
        Ok(content_length) => Ok(ResponseHead { status, content_length }),
    }
}

} // verus!
