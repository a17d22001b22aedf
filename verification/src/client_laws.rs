//! What holds of the client over all answers.

use vstd::prelude::*;
use vstd::utf8::*;

use crate::client;
use crate::client::{AnswerView, ClientErrorView};
use crate::http;
use crate::http::ParseErrorView;
use crate::http_laws;
use crate::message_laws;
use crate::text;
use crate::text_laws;

verus! {

/// The head ends at the first place where the four bytes stand.
proof fn lemma_header_end(raw: Seq<u8>, at: int)
    requires
        0 <= at <= raw.len(),
        client::starts_with_terminator(raw.skip(at)),
        forall|q: int| 0 <= q < at ==> !client::starts_with_terminator(#[trigger] raw.skip(q)),
    ensures
        client::header_end(raw) == Some((at + 4) as nat),
    decreases at,
{
    assert(raw.skip(0) == raw);
    if at > 0 {
        let rest = raw.drop_first();
        assert(!client::starts_with_terminator(raw.skip(0)));
        assert(rest.skip(at - 1) == raw.skip(at));
        assert forall|q: int| 0 <= q < at - 1 implies !client::starts_with_terminator(
            #[trigger] rest.skip(q),
        ) by {
            assert(rest.skip(q) == raw.skip(q + 1));
        }
        lemma_header_end(rest, at - 1);
    }
}

/// The head of a response is ASCII, and its empty line is its end.
pub proof fn lemma_response_head_end(status: u16, body: Seq<u8>)
    ensures
        ({
            let head = http::message_head(http::status_line(status), body.len());
            let raw = http::message(http::status_line(status), body);
            &&& encode_utf8(head).len() == head.len()
            &&& client::header_end(raw) == Some(head.len())
        }),
{
    let first = http::status_line(status);
    let head = http::message_head(first, body.len());
    let raw = http::message(first, body);
    reveal_strlit("\r\n");
    reveal_strlit("Content-Length: ");
    reveal_strlit("Connection: close");
    http_laws::lemma_status_line_plain(status);
    text::lemma_decimal(body.len());
    let digits = text::decimal(body.len());
    let length = "Content-Length: "@ + digits;
    let p1 = first.len() as int;
    let p2 = p1 + 2 + length.len();
    let p3 = p2 + 2 + 17;
    assert(head.len() == p3 + 4);
    assert forall|i: int| 0 <= i < head.len() implies '\0' <= #[trigger] head[i] <= '\u{7f}' && (
    head[i] == '\r' ==> i == p1 || i == p2 || i >= p3) by {
        if i < p1 {
            assert(head[i] == first[i]);
        } else if i == p1 || i == p1 + 1 {
            assert(head[i] == "\r\n"@[i - p1]);
        } else if i < p1 + 2 + 16 {
            assert(head[i] == "Content-Length: "@[i - p1 - 2]);
        } else if i < p2 {
            assert(head[i] == digits[i - p1 - 2 - 16]);
            assert(text::is_digit(digits[i - p1 - 2 - 16]));
        } else if i == p2 || i == p2 + 1 {
            assert(head[i] == "\r\n"@[i - p2]);
        } else if i < p3 {
            assert(head[i] == "Connection: close"@[i - p2 - 2]);
        } else if i < p3 + 2 {
            assert(head[i] == "\r\n"@[i - p3]);
        } else {
            assert(head[i] == "\r\n"@[i - p3 - 2]);
        }
    }
    assert(is_ascii_chars(head));
    is_ascii_chars_encode_utf8(head);
    let bytes = encode_utf8(head);
    assert(forall|i: int| 0 <= i < head.len() ==> raw[i] == #[trigger] head[i] as u8);
    assert(head[p3] == '\r' && head[p3 + 1] == '\n' && head[p3 + 2] == '\r' && head[p3 + 3]
        == '\n');
    assert(client::starts_with_terminator(raw.skip(p3)));
    assert forall|q: int| 0 <= q < p3 implies !client::starts_with_terminator(
        #[trigger] raw.skip(q),
    ) by {
        let here = raw.skip(q);
        if client::starts_with_terminator(here) {
            assert(here[0] == raw[q] && here[2] == raw[q + 2]);
            assert(head[q] as u8 == 13u8 && head[q + 2] as u8 == 13u8);
            assert(head[q] == '\r');
            assert(head[q + 2] == '\r');
        }
    }
    lemma_header_end(raw, p3);
}

/// The client reads out of a response what the server put into it: the status
/// and the body, byte for byte.
pub proof fn law_answer_round_trip(status: u16, body: Seq<u8>)
    requires
        body.len() <= usize::MAX,
    ensures
        client::answer(http::message(http::status_line(status), body)) == Ok::<
            AnswerView,
            ClientErrorView,
        >(AnswerView { status, body }),
{
    let head = http::message_head(http::status_line(status), body.len());
    let raw = http::message(http::status_line(status), body);
    lemma_response_head_end(status, body);
    let end = head.len() as int;
    assert(raw.take(end) == encode_utf8(head));
    encode_utf8_valid_utf8(head);
    encode_utf8_decode_utf8(head);
    http_laws::law_response_round_trip(status, body.len());
    assert(raw.subrange(end, end + body.len()) == body);
}

/// An answer that the connection cut short in its body is never taken for a
/// whole one.
pub proof fn law_truncated_answer_is_refused(status: u16, body: Seq<u8>, n: nat)
    requires
        body.len() <= usize::MAX,
        n < body.len(),
    ensures
        ({
            let raw = http::message(http::status_line(status), body);
            let head_len = http::message_head(http::status_line(status), body.len()).len();
            client::answer(raw.take((head_len + n) as int)) == Err::<AnswerView, ClientErrorView>(
                ClientErrorView::Truncated { available: n, expected: body.len() },
            )
        }),
{
    let head = http::message_head(http::status_line(status), body.len());
    let whole = http::message(http::status_line(status), body);
    let end = head.len() as int;
    let raw = whole.take(end + n);
    lemma_response_head_end(status, body);
    lemma_header_end_of_prefix(whole, raw.len(), head.len());
    assert(raw.take(end) == encode_utf8(head));
    encode_utf8_valid_utf8(head);
    encode_utf8_decode_utf8(head);
    http_laws::law_response_round_trip(status, body.len());
}

/// The head ends in the same place in every prefix that holds it.
proof fn lemma_header_end_of_prefix(raw: Seq<u8>, n: nat, end: nat)
    requires
        client::header_end(raw) == Some(end),
        end <= n <= raw.len(),
    ensures
        client::header_end(raw.take(n as int)) == Some(end),
    decreases raw.len(),
{
    let prefix = raw.take(n as int);
    if !client::starts_with_terminator(raw) {
        lemma_header_end_positive(raw.drop_first());
        lemma_header_end_of_prefix(raw.drop_first(), (n - 1) as nat, (end - 1) as nat);
        assert(prefix.drop_first() == raw.drop_first().take(n - 1));
    }
}

proof fn lemma_header_end_positive(raw: Seq<u8>)
    ensures
        client::header_end(raw) matches Some(end) ==> 4 <= end <= raw.len(),
    decreases raw.len(),
{
    if raw.len() >= 4 {
        lemma_header_end_positive(raw.drop_first());
    }
}

// ---------------------------------------------------------------------------
// Any answer
// ---------------------------------------------------------------------------

/// CRLF CRLF stands at `p`.
pub open spec fn terminator_at(raw: Seq<u8>, p: int) -> bool {
    &&& 0 <= p && p + 4 <= raw.len()
    &&& raw[p] == 13 && raw[p + 1] == 10 && raw[p + 2] == 13 && raw[p + 3] == 10
}

/// The head runs up to `end`, just behind the first CRLF CRLF.
pub open spec fn head_ends_at(raw: Seq<u8>, end: int) -> bool {
    terminator_at(raw, end - 4) && forall|p: int| p < end - 4 ==> !#[trigger] terminator_at(raw, p)
}

/// The end of a head is found exactly where the first CRLF CRLF ends, and not
/// found where there is none.
pub proof fn law_header_end(raw: Seq<u8>, end: nat)
    ensures
        client::header_end(raw) == Some(end) <==> head_ends_at(raw, end as int),
        client::header_end(raw) is None <==> forall|p: int| !#[trigger] terminator_at(raw, p),
{
    lemma_found(raw);
    match client::header_end(raw) {
        Some(found) => {
            assert(terminator_at(raw, found - 4));
            if head_ends_at(raw, end as int) {
                assert(terminator_at(raw, end - 4));
            }
        },
        None => {
            assert(!terminator_at(raw, end - 4));
        },
    }
}

proof fn lemma_found(raw: Seq<u8>)
    ensures
        match client::header_end(raw) {
            Some(end) => head_ends_at(raw, end as int),
            None => forall|p: int| !#[trigger] terminator_at(raw, p),
        },
    decreases raw.len(),
{
    if raw.len() >= 4 {
        assert(client::starts_with_terminator(raw) == terminator_at(raw, 0));
        if !client::starts_with_terminator(raw) {
            let rest = raw.drop_first();
            lemma_found(rest);
            assert forall|p: int| #[trigger] terminator_at(raw, p) implies terminator_at(
                rest,
                p - 1,
            ) by {
                assert(p != 0);
            }
            match client::header_end(rest) {
                Some(end) => {
                    assert(terminator_at(rest, end - 4));
                    assert(terminator_at(raw, end + 1 - 4));
                    assert forall|p: int| p < end + 1 - 4 implies !#[trigger] terminator_at(
                        raw,
                        p,
                    ) by {
                        if terminator_at(raw, p) {
                            assert(terminator_at(rest, p - 1));
                        }
                    }
                },
                None => {},
            }
        }
    }
}

/// Where there is no CRLF CRLF, or the head is not UTF-8, that is the error.
pub proof fn law_answer_without_head(raw: Seq<u8>)
    ensures
        (forall|p: int| !#[trigger] terminator_at(raw, p)) <==> client::answer(raw) == Err::<
            AnswerView,
            ClientErrorView,
        >(ClientErrorView::NoHeaderTerminator),
        forall|end: int| #[trigger]
            head_ends_at(raw, end) ==> (!valid_utf8(raw.take(end)) <==> client::answer(raw)
                == Err::<AnswerView, ClientErrorView>(ClientErrorView::NonUtf8Head)),
{
    law_header_end(raw, 0);
    assert forall|end: int| #[trigger] head_ends_at(raw, end) implies client::header_end(raw)
        == Some(end as nat) by {
        assert(terminator_at(raw, end - 4));
        law_header_end(raw, end as nat);
    }
}

/// Any answer is read by its bytes, whatever server sent it and whatever headers
/// it has: the status is the number behind the first space, the body is as many
/// bytes behind the head as its headers say, and an answer with fewer is cut
/// short.
pub proof fn law_any_answer(
    raw: Seq<u8>,
    end: int,
    version: Seq<char>,
    code: Seq<char>,
    phrase: Seq<char>,
    headers: Seq<Seq<char>>,
    bare: Seq<bool>,
    rest: Seq<char>,
)
    requires
        head_ends_at(raw, end),
        valid_utf8(raw.take(end)),
        !version.contains(' '),
        !code.contains(' '),
        phrase.len() > 0 ==> phrase[0] == ' ',
        message_laws::are_lines(seq![version + seq![' '] + code + phrase] + headers, bare),
        message_laws::are_headers(headers),
        message_laws::ends_head(rest),
        decode_utf8(raw.take(end)) == message_laws::text_of(
            seq![version + seq![' '] + code + phrase] + headers,
            bare,
        ) + rest,
    ensures
        forall|from: int, status: nat, n: nat|
            status <= 65535 && #[trigger] text_laws::number_from(code, from, status)
                && #[trigger] message_laws::headers_say(headers, Ok(n)) ==> client::answer(raw) == (
            if raw.len() - end >= n {
                Ok::<AnswerView, ClientErrorView>(
                    AnswerView { status: status as u16, body: raw.subrange(end, end + n) },
                )
            } else {
                Err::<AnswerView, ClientErrorView>(
                    ClientErrorView::Truncated {
                        available: (raw.len() - end) as nat,
                        expected: n,
                    },
                )
            }),
        forall|from: int, status: nat, e: ParseErrorView|
            status <= 65535 && #[trigger] text_laws::number_from(code, from, status)
                && #[trigger] message_laws::headers_say(headers, Err(e)) ==> client::answer(raw)
                == Err::<AnswerView, ClientErrorView>(ClientErrorView::BadHead(e)),
        (forall|from: int, status: nat|
            #[trigger] text_laws::number_from(code, from, status) ==> status > 65535)
            ==> client::answer(raw) == Err::<AnswerView, ClientErrorView>(
            ClientErrorView::BadHead(ParseErrorView::MalformedRequestLine),
        ),
{
    assert(terminator_at(raw, end - 4));
    law_header_end(raw, end as nat);
    message_laws::law_response_head(version, code, phrase, headers, bare, rest);
    let head = decode_utf8(raw.take(end));
    let r = http::response_head(head);
    assert forall|from: int, status: nat, n: nat|
        status <= 65535 && #[trigger] text_laws::number_from(code, from, status)
            && #[trigger] message_laws::headers_say(headers, Ok(n)) implies r == Ok::<
        http::ResponseHeadView,
        ParseErrorView,
    >(http::ResponseHeadView { status, content_length: n }) by {
        message_laws::law_headers(headers, Ok(n));
        match r {
            Ok(h) => {
                message_laws::law_headers(headers, Ok(h.content_length));
            },
            Err(e) => {
                message_laws::law_headers(headers, Err(e));
            },
        }
    }
    assert forall|from: int, status: nat, e: ParseErrorView|
        status <= 65535 && #[trigger] text_laws::number_from(code, from, status)
            && #[trigger] message_laws::headers_say(headers, Err(e)) implies r == Err::<
        http::ResponseHeadView,
        ParseErrorView,
    >(e) by {
        message_laws::law_headers(headers, Err(e));
        match r {
            Ok(h) => {
                message_laws::law_headers(headers, Ok(h.content_length));
            },
            Err(e2) => {
                message_laws::law_headers(headers, Err(e2));
            },
        }
    }
}

/// What an answer means: a put and a delete are done for every status from 200
/// to 299 and no other; a get has the body as its value for 200, no value for
/// 404, and every other status is an error. An answer that was not understood is
/// an error either way.
pub proof fn law_what_answers_mean(raw: Seq<u8>)
    ensures
        match client::answer(raw) {
            Ok(a) => {
                &&& client::done_of(raw) == if a.status >= 200 && a.status <= 299 {
                    Ok::<(), ClientErrorView>(())
                } else {
                    Err(ClientErrorView::UnexpectedStatus(a.status))
                }
                &&& a.status == 200 ==> client::value_of(raw) == Ok::<
                    Option<Seq<u8>>,
                    ClientErrorView,
                >(Some(a.body))
                &&& a.status == 404 ==> client::value_of(raw) == Ok::<
                    Option<Seq<u8>>,
                    ClientErrorView,
                >(None)
                &&& a.status != 200 && a.status != 404 ==> client::value_of(raw) == Err::<
                    Option<Seq<u8>>,
                    ClientErrorView,
                >(ClientErrorView::UnexpectedStatus(a.status))
            },
            Err(e) => client::done_of(raw) == Err::<(), ClientErrorView>(e) && client::value_of(raw)
                == Err::<Option<Seq<u8>>, ClientErrorView>(e),
        },
{
}

/// The status alone decides success: 200 to 299.
pub proof fn law_success(status: u16)
    ensures
        200 <= status <= 299 <==> client::success(status) == Ok::<(), ClientErrorView>(()),
        !(200 <= status <= 299) <==> client::success(status) == Err::<(), ClientErrorView>(
            ClientErrorView::UnexpectedStatus(status),
        ),
{
}

/// The messages for a person to read.
pub proof fn law_client_error_messages(e: ParseErrorView, a: nat, b: nat, status: u16)
    ensures
        ClientErrorView::NoHeaderTerminator.message() == "no header terminator"@,
        ClientErrorView::NonUtf8Head.message() == "non-utf8 response head"@,
        ClientErrorView::BadHead(e).message() == e.message(),
        (ClientErrorView::Truncated { available: a, expected: b }).message()
            == "body truncated: got "@ + text::decimal(a) + ", expected "@ + text::decimal(b),
        ClientErrorView::UnexpectedStatus(status).message() == "unexpected HTTP status: "@
            + text::decimal(status as nat),
{
}

} // verus!
