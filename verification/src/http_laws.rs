//! What holds of the messages over all requests and responses.

use vstd::prelude::*;
use vstd::utf8::*;

use crate::http;
use crate::http::{Method, ParseErrorView, RequestHeadView, ResponseHeadView, TargetView};
use crate::text;

verus! {

// ---------------------------------------------------------------------------
// Lines
// ---------------------------------------------------------------------------

/// A line feed ends a line.
pub proof fn lemma_lines_concat(a: Seq<char>, b: Seq<char>)
    ensures
        http::lines(a.push('\n') + b) == http::lines(a) + http::lines(b),
{
    text::lemma_split_concat(a, '\n', b);
    let s = text::split(a.push('\n') + b, '\n');
    assert(http::lines(a.push('\n') + b) == http::lines(a) + http::lines(b));
}

/// Without a line feed there is one line.
pub proof fn lemma_lines_single(a: Seq<char>)
    requires
        !a.contains('\n'),
    ensures
        http::lines(a) == seq![http::strip_cr(a)],
{
    text::lemma_split_single(a, '\n');
    assert(http::lines(a) == seq![http::strip_cr(a)]);
}

/// A line that ends in CRLF is the first of the lines.
pub proof fn lemma_first_line(first: Seq<char>, rest: Seq<char>)
    requires
        !first.contains('\n'),
    ensures
        http::lines(first + "\r\n"@ + rest) == seq![first] + http::lines(rest),
{
    reveal_strlit("\r\n");
    let a = first.push('\r');
    assert(first + "\r\n"@ + rest == a.push('\n') + rest);
    assert(!a.contains('\n')) by {
        if a.contains('\n') {
            let i = choose|i: int| 0 <= i < a.len() && a[i] == '\n';
            assert(first[i] == '\n');
        }
    }
    lemma_lines_concat(a, rest);
    lemma_lines_single(a);
    assert(http::strip_cr(a) == first);
}

/// A sequence holds no character that none of its parts holds.
proof fn lemma_concat_lacks(a: Seq<char>, b: Seq<char>, c: char)
    requires
        !a.contains(c),
        !b.contains(c),
    ensures
        !(a + b).contains(c),
{
    if (a + b).contains(c) {
        let i = choose|i: int| 0 <= i < (a + b).len() && (a + b)[i] == c;
        if i < a.len() {
            assert(a[i] == c);
        } else {
            assert(b[i - a.len()] == c);
        }
    }
}

/// The digits of a number are digits only.
proof fn lemma_decimal_lacks(n: nat, c: char)
    requires
        !text::is_digit(c),
    ensures
        !text::decimal(n).contains(c),
{
    text::lemma_decimal(n);
}

// ---------------------------------------------------------------------------
// Headers
// ---------------------------------------------------------------------------

/// Text that neither starts nor ends in white space is left as it is.
proof fn lemma_trim_nothing(s: Seq<char>)
    requires
        s.len() > 0,
        !text::is_white_space(s[0]),
        !text::is_white_space(s.last()),
    ensures
        text::trim(s) == s,
{
}

/// The line that declares the length of a body is read as that length.
proof fn lemma_length_line(n: nat)
    requires
        n <= usize::MAX,
    ensures
        ({
            let line = "Content-Length: "@ + text::decimal(n);
            &&& http::content_length_header(line) == Some(text::decimal(n))
            &&& text::parse_at_most(text::decimal(n), usize::MAX as nat) == Some(n)
            &&& !line.contains('\n')
        }),
{
    reveal_strlit("Content-Length: ");
    reveal_strlit("content-length");
    text::law_decimal_round_trip(n, usize::MAX as nat);
    text::lemma_decimal(n);
    let digits = text::decimal(n);
    let line = "Content-Length: "@ + digits;
    assert forall|j: int| 0 <= j < 14 implies line[j] != ':' by {
        assert(line[j] == "Content-Length: "@[j]);
    }
    assert(line[14] == ':');
    text::lemma_index_of_first(line, ':', 14);
    let name = line.take(14);
    assert(name[0] == 'C' && name.last() == 'h');
    lemma_trim_nothing(name);
    assert forall|i: int| 0 <= i < name.len() implies text::ascii_lower(#[trigger] name[i])
        == text::ascii_lower("content-length"@[i]) by {
        assert(name[i] == "Content-Length: "@[i]);
    }
    assert(text::same_ignoring_ascii_case(name, "content-length"@));
    let value = line.skip(15);
    assert(value[0] == ' ');
    assert(value.drop_first() == digits);
    assert(text::is_digit(digits[0]) && text::is_digit(digits.last()));
    assert(text::trim_start(digits) == digits);
    assert(text::trim_start(value) == digits);
    lemma_trim_nothing(digits);
    lemma_decimal_lacks(n, '\n');
    lemma_concat_lacks("Content-Length: "@, digits, '\n');
}

/// The line about the connection says nothing of the body.
proof fn lemma_connection_line()
    ensures
        http::content_length_header("Connection: close"@) is None,
        http::transfer_encoding_header("Connection: close"@) is None,
        !"Connection: close"@.contains('\n'),
        "Connection: close"@.len() > 0,
{
    reveal_strlit("Connection: close");
    reveal_strlit("content-length");
    reveal_strlit("transfer-encoding");
    let line = "Connection: close"@;
    text::lemma_index_of_first(line, ':', 10);
    let name = line.take(10);
    assert(name[0] == 'C' && name.last() == 'n');
    lemma_trim_nothing(name);
}

/// The lines of the head of a message, and what its headers declare.
pub proof fn lemma_message_head(first: Seq<char>, n: nat)
    requires
        !first.contains('\n'),
        n <= usize::MAX,
    ensures
        http::lines(http::message_head(first, n))[0] == first,
        http::body_length(http::header_block(http::lines(http::message_head(first, n)).skip(1)))
            == Ok::<nat, ParseErrorView>(n),
{
    let length = "Content-Length: "@ + text::decimal(n);
    let connection = "Connection: close"@;
    let empty = Seq::<char>::empty();
    let tail3 = empty;
    let tail2 = empty + "\r\n"@ + tail3;
    let tail1 = connection + "\r\n"@ + tail2;
    let tail0 = length + "\r\n"@ + tail1;
    let head = http::message_head(first, n);
    assert(head == first + "\r\n"@ + tail0);
    lemma_length_line(n);
    lemma_connection_line();
    lemma_first_line(first, tail0);
    lemma_first_line(length, tail1);
    lemma_first_line(connection, tail2);
    lemma_first_line(empty, tail3);
    lemma_lines_single(empty);
    let ls = http::lines(head);
    assert(ls == seq![first, length, connection, empty, empty]);
    let s1 = ls.skip(1);
    assert(s1 == seq![length, connection, empty, empty]);
    let s2 = s1.drop_first();
    assert(s2 == seq![connection, empty, empty]);
    let s3 = s2.drop_first();
    assert(s3 == seq![empty, empty]);
    reveal_strlit("Content-Length: ");
    assert(http::header_block(s3) == Seq::<Seq<char>>::empty());
    assert(http::header_block(s2) == seq![connection]);
    assert(http::header_block(s1) == seq![length, connection]);
    let h = seq![length, connection];
    assert(h.drop_last() == seq![length]);
    assert(seq![length].drop_last() == Seq::<Seq<char>>::empty());
    assert(http::declared_length(Seq::<Seq<char>>::empty()) == Ok::<Option<nat>, ParseErrorView>(
        None,
    ));
    assert(http::declared_length(seq![length]) == Ok::<Option<nat>, ParseErrorView>(Some(n)));
    assert(http::declared_length(h) == Ok::<Option<nat>, ParseErrorView>(Some(n)));
}

// ---------------------------------------------------------------------------
// Round trips
// ---------------------------------------------------------------------------

/// A request is read as what was built: method, path and length of the body,
/// for every path that is not empty and holds no space and no line feed.
pub proof fn law_request_round_trip(method: Method, path: Seq<char>, n: nat)
    requires
        path.len() > 0,
        !path.contains(' '),
        !path.contains('\n'),
        n <= usize::MAX,
    ensures
        http::request_head(http::message_head(http::request_line(method, path), n)) == Ok::<
            RequestHeadView,
            ParseErrorView,
        >(RequestHeadView { method, path, content_length: n }),
{
    reveal_strlit("PUT");
    reveal_strlit("GET");
    reveal_strlit("DELETE");
    reveal_strlit(" ");
    reveal_strlit(" HTTP/1.1");
    let token = method.token();
    let version = " HTTP/1.1"@.skip(1);
    let line = http::request_line(method, path);
    assert(line == token.push(' ') + (path.push(' ') + version));
    assert(!token.contains(' ') && !token.contains('\n'));
    assert(!version.contains(' '));
    assert(!line.contains('\n')) by {
        lemma_concat_lacks(token, " "@, '\n');
        lemma_concat_lacks(token + " "@, path, '\n');
        lemma_concat_lacks(token + " "@ + path, " HTTP/1.1"@, '\n');
    }
    text::lemma_split_concat(token, ' ', path.push(' ') + version);
    text::lemma_split_concat(path, ' ', version);
    text::lemma_split_single(token, ' ');
    text::lemma_split_single(path, ' ');
    text::lemma_split_single(version, ' ');
    assert(text::split(line, ' ') == seq![token, path, version]);
    assert(http::method_named(token) == Some(method)) by {
        if method != Method::Put {
            assert(token[0] != "PUT"@[0]);
        }
        if method == Method::Delete {
            assert(token[0] != "GET"@[0]);
        }
    }
    lemma_message_head(line, n);
}

/// A request whose path holds a space is refused: it is never read as one for
/// the part of the path before the space.
pub proof fn law_space_in_path_is_refused(method: Method, path: Seq<char>, n: nat)
    requires
        path.contains(' '),
        !path.contains('\n'),
        n <= usize::MAX,
    ensures
        http::request_head(http::message_head(http::request_line(method, path), n)) == Err::<
            RequestHeadView,
            ParseErrorView,
        >(ParseErrorView::MalformedRequestLine),
{
    reveal_strlit("PUT");
    reveal_strlit("GET");
    reveal_strlit("DELETE");
    reveal_strlit(" ");
    reveal_strlit(" HTTP/1.1");
    let token = method.token();
    let version = " HTTP/1.1"@.skip(1);
    let line = http::request_line(method, path);
    assert(line == token.push(' ') + (path.push(' ') + version));
    assert(!token.contains('\n'));
    assert(!line.contains('\n')) by {
        lemma_concat_lacks(token, " "@, '\n');
        lemma_concat_lacks(token + " "@, path, '\n');
        lemma_concat_lacks(token + " "@ + path, " HTTP/1.1"@, '\n');
    }
    let i = choose|i: int| 0 <= i < path.len() && path[i] == ' ';
    let head = path.take(i);
    let tail = path.skip(i + 1);
    assert(path == head.push(' ') + tail);
    text::lemma_split_concat(token, ' ', path.push(' ') + version);
    text::lemma_split_concat(path, ' ', version);
    text::lemma_split_concat(head, ' ', tail);
    text::lemma_split_len(token, ' ');
    text::lemma_split_len(head, ' ');
    text::lemma_split_len(tail, ' ');
    text::lemma_split_len(version, ' ');
    lemma_message_head(line, n);
}

/// A line of the form `METHOD SP PATH SP VERSION`.
pub open spec fn has_request_form(
    line: Seq<char>,
    method: Seq<char>,
    path: Seq<char>,
    version: Seq<char>,
) -> bool {
    &&& line == method.push(' ') + path.push(' ') + version
    &&& method.len() > 0 && !method.contains(' ')
    &&& path.len() > 0 && !path.contains(' ')
    &&& version.len() > 0 && !version.contains(' ')
}

/// A head is malformed exactly when its first line is not of the form
/// `METHOD SP PATH SP VERSION`, and an accepted request has the method and the
/// path of that line.
pub proof fn law_request_line(head: Seq<char>)
    ensures
        http::request_head(head) == Err::<RequestHeadView, ParseErrorView>(
            ParseErrorView::MalformedRequestLine,
        ) <==> !exists|m: Seq<char>, p: Seq<char>, v: Seq<char>|
            has_request_form(http::lines(head)[0], m, p, v),
        http::request_head(head) matches Ok(request) ==> exists|v: Seq<char>|
            has_request_form(http::lines(head)[0], request.method.token(), request.path, v),
{
    let line = http::lines(head)[0];
    let parts = text::split(line, ' ');
    text::lemma_split_pieces(line, ' ');
    text::lemma_join_split(line, ' ');
    if http::is_request_line(parts) {
        reveal_with_fuel(text::join, 3);
        assert(line == parts[0].push(' ') + parts[1].push(' ') + parts[2]);
        assert(has_request_form(line, parts[0], parts[1], parts[2]));
    }
    assert forall|m: Seq<char>, p: Seq<char>, v: Seq<char>|
        has_request_form(line, m, p, v) implies http::is_request_line(parts) by {
        assert(line == m.push(' ') + (p.push(' ') + v));
        text::lemma_split_concat(m, ' ', p.push(' ') + v);
        text::lemma_split_concat(p, ' ', v);
        text::lemma_split_single(m, ' ');
        text::lemma_split_single(p, ' ');
        text::lemma_split_single(v, ' ');
        assert(parts == seq![m, p, v]);
    }
    lemma_declared_never_malformed(http::header_block(http::lines(head).skip(1)));
    if http::request_head(head) is Ok {
        let request = http::request_head(head)->Ok_0;
        assert(has_request_form(line, request.method.token(), request.path, parts[2]));
    }
}

/// Header lines are at fault in other ways than the request line.
proof fn lemma_declared_never_malformed(headers: Seq<Seq<char>>)
    ensures
        http::declared_length(headers) != Err::<Option<nat>, ParseErrorView>(
            ParseErrorView::MalformedRequestLine,
        ),
    decreases headers.len(),
{
    if headers.len() > 0 {
        lemma_declared_never_malformed(headers.drop_last());
    }
}

/// A response is read as what was built: status and length of the body.
pub proof fn law_response_round_trip(status: u16, n: nat)
    requires
        n <= usize::MAX,
    ensures
        http::response_head(http::message_head(http::status_line(status), n)) == Ok::<
            ResponseHeadView,
            ParseErrorView,
        >(ResponseHeadView { status: status as nat, content_length: n }),
{
    reveal_strlit("HTTP/1.1 ");
    reveal_strlit(" ");
    let version = "HTTP/1.1 "@.drop_last();
    let digits = text::decimal(status as nat);
    let phrase = http::reason(status);
    let line = http::status_line(status);
    assert(line == version.push(' ') + (digits.push(' ') + phrase));
    assert(!version.contains(' '));
    lemma_decimal_lacks(status as nat, ' ');
    lemma_status_line_plain(status);
    text::lemma_split_concat(version, ' ', digits.push(' ') + phrase);
    text::lemma_split_concat(digits, ' ', phrase);
    text::lemma_split_single(version, ' ');
    text::lemma_split_single(digits, ' ');
    let parts = text::split(line, ' ');
    assert(parts == seq![version] + (seq![digits] + text::split(phrase, ' ')));
    text::lemma_split_len(phrase, ' ');
    text::law_decimal_round_trip(status as nat, u16::MAX as nat);
    lemma_message_head(line, n);
}

/// The status line is a single, short line of printable ASCII.
pub proof fn lemma_status_line_plain(status: u16)
    ensures
        http::status_line(status).len() <= 40,
        forall|i: int|
            0 <= i < http::status_line(status).len() ==> ' ' <= #[trigger] http::status_line(
                status,
            )[i] <= '~',
        !http::status_line(status).contains('\n'),
{
    reveal_strlit("HTTP/1.1 ");
    reveal_strlit(" ");
    reveal_strlit("OK");
    reveal_strlit("No Content");
    reveal_strlit("Bad Request");
    reveal_strlit("Not Found");
    reveal_strlit("Payload Too Large");
    reveal_strlit("Internal Server Error");
    reveal_strlit("Not Implemented");
    reveal_strlit("Status");
    text::lemma_decimal(status as nat);
    assert(text::decimal(status as nat).len() <= 5) by {
        reveal_with_fuel(text::decimal, 6);
    }
    let line = http::status_line(status);
    let digits = text::decimal(status as nat);
    let phrase = http::reason(status);
    assert forall|i: int| 0 <= i < line.len() implies ' ' <= #[trigger] line[i] <= '~' by {
        if i < 9 {
            assert(line[i] == "HTTP/1.1 "@[i]);
        } else if i < 9 + digits.len() {
            assert(line[i] == digits[i - 9]);
            assert(text::is_digit(digits[i - 9]));
        } else if i == 9 + digits.len() {
            assert(line[i] == ' ');
        } else {
            assert(line[i] == phrase[i - 10 - digits.len()]);
        }
    }
}

// ---------------------------------------------------------------------------
// Paths
// ---------------------------------------------------------------------------

/// A path names an object exactly when it is the object's path and both bucket
/// and key are safe. In particular no path reaches a bucket or a key with an
/// empty, `.` or `..` segment, or with a control character.
pub proof fn law_target(path: Seq<char>, bucket: Seq<char>, key: Seq<char>)
    ensures
        http::target_of(path) == Some(TargetView { bucket, key }) <==> {
            &&& path == http::object_path(bucket, key)
            &&& http::is_valid_bucket(bucket)
            &&& http::is_safe_key_text(key)
        },
{
    reveal_strlit("/");
    let slash = "/"@;
    if http::target_of(path) == Some(TargetView { bucket, key }) {
        let rest = path.skip(1);
        rest.index_of_first_ensures('/');
        let i = rest.index_of_first('/').unwrap();
        assert(path == slash + rest);
        assert(rest == rest.take(i) + slash + rest.skip(i + 1));
        assert(path == http::object_path(bucket, key));
    }
    if path == http::object_path(bucket, key) && http::is_valid_bucket(bucket)
        && http::is_safe_key_text(key) {
        let rest = path.skip(1);
        assert(rest == bucket + slash + key);
        let n = bucket.len() as int;
        assert forall|j: int| 0 <= j < n implies rest[j] != '/' by {
            assert(rest[j] == bucket[j]);
            assert(bucket.contains(bucket[j]));
        }
        assert(rest[n] == '/');
        text::lemma_index_of_first(rest, '/', n);
        assert(rest.take(n) == bucket);
        assert(rest.skip(n + 1) == key);
        if key.len() == 0 {
            text::lemma_split_single(key, '/');
            assert(!http::is_plain_segment(text::split(key, '/')[0]));
        }
    }
}

/// The path of a request takes up no more bytes than its head.
pub proof fn lemma_path_is_part(head: Seq<char>)
    ensures
        http::request_head(head) matches Ok(request) ==> encode_utf8(request.path).len()
            <= encode_utf8(head).len(),
{
    if http::request_head(head) is Ok {
        let request = http::request_head(head)->Ok_0;
        law_request_line(head);
        let first = text::split(head, '\n')[0];
        let line = http::strip_cr(first);
        text::lemma_split_len(head, '\n');
        assert(http::lines(head)[0] == line);
        let m = request.method.token();
        let p = request.path;
        let v = choose|v: Seq<char>| has_request_form(line, m, p, v);
        text::lemma_first_piece(head, '\n');
        let rest = head.skip(line.len() as int);
        assert(head == line + rest) by {
            assert(head.take(first.len() as int) == first);
        }
        let before = m.push(' ');
        let after = seq![' '] + v;
        assert(line == before + (p + after));
        text::lemma_encode_concat(line, rest);
        text::lemma_encode_concat(before, p + after);
        text::lemma_encode_concat(p, after);
    }
}

/// A bucket and a key that a path names hold no NUL.
pub proof fn law_target_has_no_nul(path: Seq<char>)
    ensures
        http::target_of(path) matches Some(t) ==> !t.bucket.contains('\0') && !t.key.contains(
            '\0',
        ),
{
}

// ---------------------------------------------------------------------------
// Heads
// ---------------------------------------------------------------------------

/// The empty line ends the head: once there is one, nothing behind it matters,
/// and without one the end of the text does as well.
pub proof fn law_empty_line_ends_head(head: Seq<char>, rest: Seq<char>)
    requires
        head.len() > 0,
        head.last() == '\n',
    ensures
        http::request_head(head + "\r\n"@ + rest) == http::request_head(head),
        http::request_head(head + "\n"@ + rest) == http::request_head(head),
        http::response_head(head + "\r\n"@ + rest) == http::response_head(head),
        http::response_head(head + "\n"@ + rest) == http::response_head(head),
{
    reveal_strlit("\n");
    let a = head.drop_last();
    let empty = Seq::<char>::empty();
    let ls = http::lines(a);
    text::lemma_split_len(a, '\n');
    assert(head == a.push('\n') + empty);
    lemma_lines_concat(a, empty);
    lemma_lines_single(empty);
    lemma_block_ends(ls.skip(1), Seq::empty());
    lemma_block_ends(ls.skip(1), http::lines(rest));
    assert(http::lines(head).skip(1) == ls.skip(1) + seq![empty] + Seq::<Seq<char>>::empty());
    let crlf = empty + "\r\n"@ + rest;
    assert(head + "\r\n"@ + rest == a.push('\n') + crlf);
    lemma_lines_concat(a, crlf);
    lemma_first_line(empty, rest);
    assert(http::lines(head + "\r\n"@ + rest).skip(1) == ls.skip(1) + seq![empty] + http::lines(rest));
    let lf = empty.push('\n') + rest;
    assert(head + "\n"@ + rest == a.push('\n') + lf);
    lemma_lines_concat(a, lf);
    lemma_lines_concat(empty, rest);
    assert(http::lines(head + "\n"@ + rest).skip(1) == ls.skip(1) + seq![empty] + http::lines(rest));
}

/// A request line without a line ending whose version is a lone carriage
/// return: the version itself, or a line ending that was cut short.
pub open spec fn version_is_bare_cr(head: Seq<char>) -> bool {
    let parts = text::split(head, ' ');
    &&& !head.contains('\n')
    &&& http::is_request_line(parts)
    &&& parts[2] == seq!['\r']
}

/// A request head reads the same with and without the empty line behind it, and
/// with anything behind that, unless all that stands for its version is a lone
/// carriage return.
pub proof fn law_head_needs_no_terminator(head: Seq<char>, rest: Seq<char>)
    requires
        !version_is_bare_cr(head),
    ensures
        http::request_head(head + "\r\n"@ + "\r\n"@ + rest) == http::request_head(head),
{
    reveal_strlit("\r\n");
    let empty = Seq::<char>::empty();
    let a = head.push('\r');
    let tail = empty + "\r\n"@ + rest;
    let whole = head + "\r\n"@ + "\r\n"@ + rest;
    assert(whole == a.push('\n') + tail);
    lemma_lines_concat(a, tail);
    lemma_first_line(empty, rest);
    let pieces = text::split(head, '\n');
    text::lemma_split_len(head, '\n');
    assert(a.drop_last() == head);
    let last = pieces.last();
    assert(text::split(a, '\n') == pieces.drop_last().push(last.push('\r')));
    assert(last.push('\r').drop_last() == last);
    // All lines but the last are the same; the last may keep a carriage return.
    let ls = http::lines(head);
    let init = ls.drop_last();
    assert(ls == init.push(http::strip_cr(last)));
    assert(http::lines(a) == init.push(last));
    let all = http::lines(whole);
    assert(all == init.push(last) + (seq![empty] + http::lines(rest)));
    if init.len() == 0 {
        assert(all.skip(1) == Seq::<Seq<char>>::empty() + seq![empty] + http::lines(rest));
        lemma_block_ends(Seq::empty(), http::lines(rest));
        assert(ls.skip(1) == Seq::<Seq<char>>::empty());
        text::lemma_split_pieces(head, '\n');
        text::lemma_join_split(head, '\n');
        assert(last == head);
        if last != http::strip_cr(last) {
            let short = http::strip_cr(last);
            assert(last == short.push('\r'));
            assert(last.drop_last() == short);
            text::lemma_split_len(short, ' ');
            let p = text::split(short, ' ');
            let q = text::split(last, ' ');
            assert(q == p.drop_last().push(p.last().push('\r')));
            if p.len() == 3 && p[2].len() == 0 {
                assert(q[2] == seq!['\r']);
            }
        }
    } else {
        let between = init.skip(1);
        assert(all.skip(1) == between.push(last) + seq![empty] + http::lines(rest));
        lemma_block_ends(between.push(last), http::lines(rest));
        assert(ls.skip(1) == between.push(http::strip_cr(last)));
        if last != http::strip_cr(last) {
            assert(last == http::strip_cr(last).push('\r'));
            lemma_last_line(between, http::strip_cr(last));
        }
    }
}

/// White space at the end is trimmed away.
proof fn lemma_trim_one_more(s: Seq<char>, c: char)
    requires
        text::is_white_space(c),
    ensures
        text::trim(s.push(c)) == text::trim(s),
{
    lemma_trim_start_one_more(s, c);
    let t = text::trim_start(s);
    if t.len() > 0 {
        assert(t.push(c).drop_last() == t);
    }
}

proof fn lemma_trim_start_one_more(s: Seq<char>, c: char)
    requires
        text::is_white_space(c),
    ensures
        text::trim_start(s.push(c)) == (if text::trim_start(s).len() == 0 {
            Seq::empty()
        } else {
            text::trim_start(s).push(c)
        }),
    decreases s.len(),
{
    reveal_with_fuel(text::trim_start, 2);
    if s.len() == 0 {
        assert(s.push(c).drop_first() == Seq::<char>::empty());
    } else {
        assert(s.push(c)[0] == s[0]);
        assert(s.push(c).drop_first() == s.drop_first().push(c));
        lemma_trim_start_one_more(s.drop_first(), c);
    }
}

/// A carriage return at the end of a header line has no part in it.
proof fn lemma_header_value_cr(line: Seq<char>, name: Seq<char>)
    ensures
        http::header_value(line.push('\r'), name) == http::header_value(line, name),
{
    let longer = line.push('\r');
    line.index_of_first_ensures(':');
    longer.index_of_first_ensures(':');
    if line.contains(':') {
        let i = line.index_of_first(':').unwrap();
        assert(longer[i] == ':');
        text::lemma_index_of_first(longer, ':', i);
        assert(longer.take(i) == line.take(i));
        assert(longer.skip(i + 1) == line.skip(i + 1).push('\r'));
        lemma_trim_one_more(line.skip(i + 1), '\r');
    } else if longer.contains(':') {
        let i = longer.index_of_first(':').unwrap();
        assert(line[i] == ':');
    }
}

/// A carriage return at the end of the last header line changes nothing.
proof fn lemma_last_line(between: Seq<Seq<char>>, line: Seq<char>)
    ensures
        http::body_length(http::header_block(between.push(line.push('\r'))))
            == http::body_length(http::header_block(between.push(line))),
{
    lemma_block_of_push(between, line);
    lemma_block_of_push(between, line.push('\r'));
    assert(between.push(line.push('\r')).drop_last() == between);
    assert(between.push(line).drop_last() == between);
    lemma_header_value_cr(line, "content-length"@);
    lemma_header_value_cr(line, "transfer-encoding"@);
    if line.len() == 0 {
        line.index_of_first_ensures(':');
    }
}

/// The block of headers with one more line: the line belongs to it where it is
/// not empty and no line before it is.
pub proof fn lemma_block_of_push(ls: Seq<Seq<char>>, line: Seq<char>)
    ensures
        http::header_block(ls.push(line)) == (if line.len() > 0 && http::header_block(ls) == ls {
            ls.push(line)
        } else {
            http::header_block(ls)
        }),
        http::header_block(ls).len() <= ls.len(),
    decreases ls.len(),
{
    let all = ls.push(line);
    if ls.len() == 0 {
        assert(all.drop_first() == Seq::<Seq<char>>::empty());
        assert(http::header_block(ls) == ls);
    } else if ls[0].len() > 0 {
        let rest = ls.drop_first();
        assert(all.drop_first() == rest.push(line));
        lemma_block_of_push(rest, line);
        assert(ls == seq![ls[0]] + rest);
        let block = http::header_block(ls);
        assert(block.drop_first() == http::header_block(rest));
        if block == ls {
            assert(http::header_block(rest) == rest);
        }
    }
}

/// The block of headers does not go past an empty line.
pub proof fn lemma_block_ends(ls: Seq<Seq<char>>, rest: Seq<Seq<char>>)
    ensures
        http::header_block(ls + seq![Seq::<char>::empty()] + rest) == http::header_block(ls),
    decreases ls.len(),
{
    let all = ls + seq![Seq::<char>::empty()] + rest;
    if ls.len() > 0 && ls[0].len() > 0 {
        lemma_block_ends(ls.drop_first(), rest);
        assert(all.drop_first() == ls.drop_first() + seq![Seq::<char>::empty()] + rest);
    }
}

/// The text with a carriage return before every line feed.
pub open spec fn with_crlf(head: Seq<char>) -> Seq<char>
    decreases head.len(),
{
    if head.len() == 0 {
        head
    } else if head.last() == '\n' {
        with_crlf(head.drop_last()).push('\r').push('\n')
    } else {
        with_crlf(head.drop_last()).push(head.last())
    }
}

/// Lines may end in CRLF or in LF: a head whose lines end in LF reads the same
/// with CRLF in its place, whether or not the last line is ended.
pub proof fn law_line_endings(head: Seq<char>)
    requires
        forall|i: int| 0 < i < head.len() && #[trigger] head[i] == '\n' ==> head[i - 1] != '\r',
    ensures
        http::request_head(with_crlf(head)) == http::request_head(head),
        http::response_head(with_crlf(head)) == http::response_head(head),
{
    lemma_crlf_pieces(head);
    let p = text::split(head, '\n');
    let q = text::split(with_crlf(head), '\n');
    text::lemma_split_len(head, '\n');
    assert forall|i: int| 0 <= i < p.len() implies http::strip_cr(#[trigger] p[i])
        == http::strip_cr(q[i]) by {
        if i < p.len() - 1 {
            assert(p[i].push('\r').drop_last() == p[i]);
        }
    }
    assert(http::lines(with_crlf(head)) == http::lines(head));
}

/// With CRLF every line but the last has a carriage return more, and none had
/// one at its end before.
proof fn lemma_crlf_pieces(head: Seq<char>)
    requires
        forall|i: int| 0 < i < head.len() && #[trigger] head[i] == '\n' ==> head[i - 1] != '\r',
    ensures
        ({
            let p = text::split(head, '\n');
            let q = text::split(with_crlf(head), '\n');
            &&& p.len() == q.len()
            &&& p.last() == q.last()
            &&& p.last().len() > 0 ==> head.len() > 0 && p.last().last() == head.last()
            &&& forall|i: int|
                0 <= i < p.len() - 1 ==> q[i] == (#[trigger] p[i]).push('\r') && (p[i].len() > 0
                    ==> p[i].last() != '\r')
        }),
    decreases head.len(),
{
    if head.len() > 0 {
        let init = head.drop_last();
        assert forall|i: int| 0 < i < init.len() && #[trigger] init[i] == '\n' implies init[i - 1]
            != '\r' by {
            assert(head[i] == '\n');
        }
        lemma_crlf_pieces(init);
        text::lemma_split_len(init, '\n');
        let p0 = text::split(init, '\n');
        let q0 = text::split(with_crlf(init), '\n');
        let p = text::split(head, '\n');
        let more = with_crlf(init).push('\r');
        assert(more.drop_last() == with_crlf(init));
        assert(with_crlf(head).drop_last() == if head.last() == '\n' {
            more
        } else {
            with_crlf(init)
        });
        let q = text::split(with_crlf(head), '\n');
        if head.last() == '\n' {
            assert(text::split(more, '\n') == q0.drop_last().push(q0.last().push('\r')));
            assert(q == q0.drop_last().push(q0.last().push('\r')).push(Seq::empty()));
            assert(p == p0.push(Seq::empty()));
            assert(head[head.len() - 1] == '\n');
            assert forall|i: int| 0 <= i < p.len() - 1 implies q[i] == (#[trigger] p[i]).push('\r')
                && (p[i].len() > 0 ==> p[i].last() != '\r') by {
                if i < p0.len() - 1 {
                    assert(p[i] == p0[i]);
                } else {
                    assert(p[i] == p0.last());
                }
            }
        } else {
            assert(p == p0.drop_last().push(p0.last().push(head.last())));
            assert(q == q0.drop_last().push(q0.last().push(head.last())));
            assert forall|i: int| 0 <= i < p.len() - 1 implies q[i] == (#[trigger] p[i]).push('\r')
                && (p[i].len() > 0 ==> p[i].last() != '\r') by {
                assert(p[i] == p0[i]);
            }
        }
    }
}

/// The length of an accepted request is beyond doubt: no header speaks of a
/// transfer encoding, at most one declares a length, and where one does that
/// is the length; otherwise it is 0.
pub proof fn law_accepted_length_is_unambiguous(headers: Seq<Seq<char>>, n: nat)
    requires
        http::body_length(headers) == Ok::<nat, ParseErrorView>(n),
    ensures
        forall|i: int|
            0 <= i < headers.len() ==> http::transfer_encoding_header(
                #[trigger] headers[i],
            ) is None,
        forall|i: int, j: int|
            0 <= i < headers.len() && 0 <= j < headers.len() && i != j
                ==> http::content_length_header(#[trigger] headers[i]) is None
                || http::content_length_header(#[trigger] headers[j]) is None,
        forall|i: int|
            0 <= i < headers.len() && http::content_length_header(#[trigger] headers[i]) is Some
                ==> text::parse_at_most(
                http::content_length_header(headers[i]).unwrap(),
                usize::MAX as nat,
            ) == Some(n),
        (forall|i: int|
            0 <= i < headers.len() ==> http::content_length_header(#[trigger] headers[i]) is None)
            ==> n == 0,
{
    reveal_strlit("content-length");
    reveal_strlit("transfer-encoding");
    lemma_declared(headers);
}

proof fn lemma_declared(headers: Seq<Seq<char>>)
    ensures
        http::declared_length(headers) matches Ok(seen) ==> {
            &&& forall|i: int|
                0 <= i < headers.len() ==> http::content_length_header(#[trigger] headers[i])
                    is Some || http::transfer_encoding_header(headers[i]) is None
            &&& seen is None ==> forall|i: int|
                0 <= i < headers.len() ==> http::content_length_header(#[trigger] headers[i])
                    is None
            &&& seen matches Some(n) ==> exists|k: int|
                #![trigger headers[k]]
                0 <= k < headers.len() && http::content_length_header(headers[k]) is Some
                    && text::parse_at_most(
                    http::content_length_header(headers[k]).unwrap(),
                    usize::MAX as nat,
                ) == Some(n) && forall|i: int|
                    0 <= i < headers.len() && i != k ==> http::content_length_header(
                        #[trigger] headers[i],
                    ) is None
        },
    decreases headers.len(),
{
    if headers.len() > 0 && http::declared_length(headers) is Ok {
        let init = headers.drop_last();
        lemma_declared(init);
        let last = headers.len() - 1;
        assert(headers[last] == headers.last());
        assert(forall|i: int| 0 <= i < last ==> init[i] == headers[i]);
        let seen = http::declared_length(init)->Ok_0;
        if http::content_length_header(headers.last()) is None && seen is Some {
            let n = seen.unwrap();
            let k = choose|k: int|
                #![trigger init[k]]
                0 <= k < init.len() && http::content_length_header(init[k]) is Some
                    && text::parse_at_most(
                    http::content_length_header(init[k]).unwrap(),
                    usize::MAX as nat,
                ) == Some(n) && forall|i: int|
                    0 <= i < init.len() && i != k ==> http::content_length_header(
                        #[trigger] init[i],
                    ) is None;
            assert(headers[k] == init[k]);
        }
    }
}

/// What is wrong with header line `i`, if anything: a length that is not a
/// number, a second length, or a transfer encoding.
pub open spec fn fault(headers: Seq<Seq<char>>, i: int) -> Option<ParseErrorView> {
    match http::content_length_header(headers[i]) {
        Some(value) => if text::parse_at_most(value, usize::MAX as nat) is None {
            Some(ParseErrorView::InvalidContentLength)
        } else if exists|j: int|
            0 <= j < i && http::content_length_header(#[trigger] headers[j]) is Some {
            Some(ParseErrorView::ConflictingContentLength)
        } else {
            None
        },
        None => if http::transfer_encoding_header(headers[i]) is Some {
            Some(ParseErrorView::UnsupportedTransferEncoding)
        } else {
            None
        },
    }
}

/// Headers are refused exactly when some line is at fault, and the refusal
/// tells the fault of the first such line.
pub proof fn law_first_fault_decides(headers: Seq<Seq<char>>)
    ensures
        http::body_length(headers) is Ok <==> forall|i: int|
            0 <= i < headers.len() ==> #[trigger] fault(headers, i) is None,
        forall|i: int|
            0 <= i < headers.len() && #[trigger] fault(headers, i) is Some && (forall|j: int|
                0 <= j < i ==> #[trigger] fault(headers, j) is None) ==> http::body_length(headers)
                == Err::<nat, ParseErrorView>(fault(headers, i).unwrap()),
    decreases headers.len(),
{
    if headers.len() > 0 {
        let init = headers.drop_last();
        let last = headers.len() - 1;
        law_first_fault_decides(init);
        lemma_declared(init);
        assert forall|i: int| 0 <= i < last implies #[trigger] fault(headers, i) == fault(
            init,
            i,
        ) by {
            assert(init[i] == headers[i]);
            assert(forall|j: int| 0 <= j < i ==> init[j] == headers[j]);
        }
        assert(forall|j: int| 0 <= j < last ==> init[j] == headers[j]);
        if http::declared_length(init) is Ok {
            let seen = http::declared_length(init)->Ok_0;
            if seen is Some {
                assert(exists|j: int|
                    0 <= j < last && http::content_length_header(#[trigger] headers[j]) is Some);
            }
            assert(fault(headers, last) is None <==> http::declared_length(headers) is Ok);
            assert forall|i: int| 0 <= i < last implies #[trigger] fault(headers, i) is None by {
                assert(fault(init, i) is None);
            }
        } else {
            let bad = choose|i: int| 0 <= i < init.len() && #[trigger] fault(init, i) is Some;
            assert(fault(headers, bad) is Some);
            assert forall|i: int|
                0 <= i < headers.len() && #[trigger] fault(headers, i) is Some && (forall|j: int|
                    0 <= j < i ==> #[trigger] fault(
                        headers,
                        j,
                    ) is None) implies http::body_length(headers) == Err::<nat, ParseErrorView>(
                fault(headers, i).unwrap(),
            ) by {
                assert(i <= bad);
                assert forall|j: int| 0 <= j < i implies #[trigger] fault(init, j) is None by {
                    assert(fault(headers, j) is None);
                }
                assert(fault(init, i) is Some);
            }
        }
    }
}

} // verus!
