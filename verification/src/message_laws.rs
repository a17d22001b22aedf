//! What heads and paths mean, character by character.

use vstd::prelude::*;
use vstd::utf8::*;

use crate::http;
use crate::http::{Method, ParseErrorView, RequestHeadView, ResponseHeadView, TargetView};
use crate::http_laws;
use crate::text;
use crate::text_laws;

verus! {

// ---------------------------------------------------------------------------
// Header lines
// ---------------------------------------------------------------------------

/// In `line` the name stands at `i` and the first colon at `colon`: around the
/// name there is white space only, and its letters are those of `name` in
/// either case.
pub open spec fn name_at(line: Seq<char>, name: Seq<char>, i: int, colon: int) -> bool {
    &&& 0 <= i && i + name.len() <= colon < line.len()
    &&& line[colon] == ':'
    &&& forall|t: int| 0 <= t < i ==> text::is_white_space(#[trigger] line[t])
    &&& forall|t: int| i + name.len() <= t < colon ==> text::is_white_space(#[trigger] line[t])
    &&& forall|t: int|
        i <= t < i + name.len() ==> text_laws::same_letter(#[trigger] line[t], name[t - i])
}

/// `line` is a header of the given name.
pub open spec fn is_header(line: Seq<char>, name: Seq<char>) -> bool {
    exists|i: int, colon: int| #[trigger] name_at(line, name, i, colon)
}

/// `line` is a header that says how long the body is.
pub open spec fn is_length(line: Seq<char>) -> bool {
    is_header(line, "content-length"@)
}

/// `line` is a header that says how the body is encoded.
pub open spec fn is_encoding(line: Seq<char>) -> bool {
    is_header(line, "transfer-encoding"@)
}

/// Behind the colon at `colon`, with white space around it, stands the number
/// `n` from `i` up to `j`.
pub open spec fn number_at(line: Seq<char>, colon: int, i: int, j: int, n: nat) -> bool {
    &&& colon < i < j <= line.len()
    &&& forall|t: int| colon < t < i ==> text::is_white_space(#[trigger] line[t])
    &&& forall|t: int| j <= t < line.len() ==> text::is_white_space(#[trigger] line[t])
    &&& exists|from: int| #[trigger] text_laws::number_from(line.subrange(i, j), from, n)
}

/// `line` is a header that says that the body has `n` bytes.
pub open spec fn declares(line: Seq<char>, n: nat) -> bool {
    exists|i: int, colon: int, from: int, to: int|
        #[trigger] name_at(line, "content-length"@, i, colon) && #[trigger] number_at(
            line,
            colon,
            from,
            to,
            n,
        )
}

/// What is wrong with header `i` of a head, if anything: its length is no number
/// that a body can have, an earlier header gave a length, or it is about an
/// encoding.
pub open spec fn fault_at(headers: Seq<Seq<char>>, i: int) -> Option<ParseErrorView> {
    if is_length(headers[i]) {
        if !exists|n: nat| n <= usize::MAX && #[trigger] declares(headers[i], n) {
            Some(ParseErrorView::InvalidContentLength)
        } else if exists|j: int| 0 <= j < i && is_length(#[trigger] headers[j]) {
            Some(ParseErrorView::ConflictingContentLength)
        } else {
            None
        }
    } else if is_encoding(headers[i]) {
        Some(ParseErrorView::UnsupportedTransferEncoding)
    } else {
        None
    }
}

/// What headers say of the body: it has `n` bytes where one header declares them
/// and no other is about length or encoding, and none where no header is about
/// either; otherwise the first header that is at fault says why not.
pub open spec fn headers_say(headers: Seq<Seq<char>>, r: Result<nat, ParseErrorView>) -> bool {
    match r {
        Ok(n) => {
            &&& forall|i: int| 0 <= i < headers.len() ==> !is_encoding(#[trigger] headers[i])
            &&& {
                ||| n == 0 && forall|i: int|
                    0 <= i < headers.len() ==> !is_length(#[trigger] headers[i])
                ||| exists|k: int|
                    0 <= k < headers.len() && n <= usize::MAX && declares(#[trigger] headers[k], n)
                        && forall|i: int|
                        0 <= i < headers.len() && i != k ==> !is_length(#[trigger] headers[i])
            }
        },
        Err(e) => exists|i: int|
            0 <= i < headers.len() && #[trigger] fault_at(headers, i) == Some(e) && forall|j: int|
                0 <= j < i ==> #[trigger] fault_at(headers, j) is None,
    }
}

/// A name of a header, as far as it matters here: not empty, without a colon,
/// and without white space at its ends.
spec fn plain_name(name: Seq<char>) -> bool {
    &&& name.len() > 0
    &&& forall|t: int|
        0 <= t < name.len() ==> #[trigger] name[t] == '-' || 'a' <= name[t] <= 'z'
}

proof fn lemma_names()
    ensures
        plain_name("content-length"@),
        plain_name("transfer-encoding"@),
{
    reveal_strlit("content-length");
    reveal_strlit("transfer-encoding");
}

/// Where the name stands decides where the first colon is and what is left of
/// the name without its white space.
proof fn lemma_name_at(line: Seq<char>, name: Seq<char>, i: int, colon: int)
    requires
        plain_name(name),
        name_at(line, name, i, colon),
    ensures
        text::split_once(line, ':') == Some((line.take(colon), line.skip(colon + 1))),
        text::same_ignoring_ascii_case(text::trim(line.take(colon)), name),
{
    let before = line.take(colon);
    let j = i + name.len();
    assert forall|t: int| 0 <= t < colon implies line[t] != ':' by {
        if i <= t < j {
            assert(text_laws::same_letter(line[t], name[t - i]));
        }
    }
    text::lemma_index_of_first(line, ':', colon);
    assert forall|t: int| 0 <= t < i implies text::is_white_space(#[trigger] before[t]) by {
        assert(before[t] == line[t]);
    }
    assert forall|t: int| j <= t < before.len() implies text::is_white_space(
        #[trigger] before[t],
    ) by {
        assert(before[t] == line[t]);
    }
    assert(text_laws::same_letter(line[i], name[0]));
    assert(text_laws::same_letter(line[j - 1], name[name.len() - 1]));
    assert(text_laws::trims_to(before, i, j));
    text_laws::law_trim(before);
    let core = before.subrange(i, j);
    assert forall|t: int| 0 <= t < core.len() implies text_laws::same_letter(
        #[trigger] core[t],
        name[t],
    ) by {
        assert(text_laws::same_letter(line[i + t], name[t]));
    }
    text_laws::law_ascii_case(core, name);
}

/// The value of a header of the given name.
proof fn lemma_header(line: Seq<char>, name: Seq<char>)
    requires
        plain_name(name),
    ensures
        http::header_value(line, name) is Some <==> is_header(line, name),
        forall|i: int, colon: int| #[trigger]
            name_at(line, name, i, colon) ==> http::header_value(line, name) == Some(
                text::trim(line.skip(colon + 1)),
            ),
{
    assert forall|i: int, colon: int| #[trigger]
        name_at(line, name, i, colon) implies http::header_value(line, name) == Some(
        text::trim(line.skip(colon + 1)),
    ) by {
        lemma_name_at(line, name, i, colon);
    }
    if http::header_value(line, name) is Some {
        let colon = line.index_of_first(':').unwrap();
        line.index_of_first_ensures(':');
        let before = line.take(colon);
        text_laws::law_trim(before);
        let (i, j) = choose|i: int, j: int| #[trigger]
            text_laws::trims_to(before, i, j) && text::trim(before) == before.subrange(i, j);
        let core = before.subrange(i, j);
        text_laws::law_ascii_case(core, name);
        assert(j - i == name.len());
        assert forall|t: int| 0 <= t < i implies text::is_white_space(#[trigger] line[t]) by {
            assert(before[t] == line[t]);
        }
        assert forall|t: int| j <= t < colon implies text::is_white_space(#[trigger] line[t]) by {
            assert(before[t] == line[t]);
        }
        assert forall|t: int| i <= t < j implies text_laws::same_letter(
            #[trigger] line[t],
            name[t - i],
        ) by {
            assert(core[t - i] == line[t]);
        }
        assert(name_at(line, name, i, colon));
    }
}

/// A number with white space around it, trimmed and read.
proof fn lemma_number_value(line: Seq<char>, colon: int, from: int, to: int, n: nat)
    requires
        0 <= colon < line.len(),
        number_at(line, colon, from, to, n),
        n <= usize::MAX,
    ensures
        text::parse_at_most(text::trim(line.skip(colon + 1)), usize::MAX as nat) == Some(n),
{
    let after = line.skip(colon + 1);
    let a = from - colon - 1;
    let b = to - colon - 1;
    assert forall|t: int| 0 <= t < a implies text::is_white_space(#[trigger] after[t]) by {
        assert(after[t] == line[t + colon + 1]);
    }
    assert forall|t: int| b <= t < after.len() implies text::is_white_space(#[trigger] after[t]) by {
        assert(after[t] == line[t + colon + 1]);
    }
    let value = line.subrange(from, to);
    assert(after.subrange(a, b) == value);
    let k = choose|k: int| #[trigger] text_laws::number_from(value, k, n);
    assert('0' <= value[value.len() - 1] <= '9');
    assert('0' <= value[k] <= '9');
    assert(after[a] == value[0] && after[b - 1] == value[value.len() - 1]);
    assert(text_laws::trims_to(after, a, b));
    text_laws::law_trim(after);
    text_laws::law_parse(value, usize::MAX as nat, n);
}

/// What is read as a number is one with white space around it.
proof fn lemma_value_number(line: Seq<char>, colon: int, n: nat)
    requires
        0 <= colon < line.len(),
        text::parse_at_most(text::trim(line.skip(colon + 1)), usize::MAX as nat) == Some(n),
    ensures
        exists|from: int, to: int| #[trigger] number_at(line, colon, from, to, n),
{
    let after = line.skip(colon + 1);
    text_laws::law_trim(after);
    let (a, b) = choose|a: int, b: int| #[trigger]
        text_laws::trims_to(after, a, b) && text::trim(after) == after.subrange(a, b);
    let value = after.subrange(a, b);
    text_laws::law_parse(value, usize::MAX as nat, n);
    let from = a + colon + 1;
    let to = b + colon + 1;
    assert(line.subrange(from, to) == value);
    assert forall|t: int| colon < t < from implies text::is_white_space(#[trigger] line[t]) by {
        assert(after[t - colon - 1] == line[t]);
    }
    assert forall|t: int| to <= t < line.len() implies text::is_white_space(#[trigger] line[t]) by {
        assert(after[t - colon - 1] == line[t]);
    }
    assert(number_at(line, colon, from, to, n));
}

/// A header declares a number exactly when its value is that number.
proof fn lemma_declares(line: Seq<char>, n: nat)
    ensures
        declares(line, n) && n <= usize::MAX <==> (http::content_length_header(line) matches Some(
            value,
        ) && text::parse_at_most(value, usize::MAX as nat) == Some(n)),
{
    lemma_names();
    let name = "content-length"@;
    lemma_header(line, name);
    if declares(line, n) && n <= usize::MAX {
        let (i, colon, from, to) = choose|i: int, colon: int, from: int, to: int|
            #[trigger] name_at(line, name, i, colon) && #[trigger] number_at(
                line,
                colon,
                from,
                to,
                n,
            );
        lemma_number_value(line, colon, from, to, n);
    }
    if http::content_length_header(line) is Some && text::parse_at_most(
        http::content_length_header(line).unwrap(),
        usize::MAX as nat,
    ) == Some(n) {
        let (i, colon) = choose|i: int, colon: int| #[trigger] name_at(line, name, i, colon);
        lemma_value_number(line, colon, n);
        let (from, to) = choose|from: int, to: int| #[trigger] number_at(line, colon, from, to, n);
        assert(name_at(line, name, i, colon) && number_at(line, colon, from, to, n));
    }
}

/// The fault of a header is what its characters say.
proof fn lemma_fault(headers: Seq<Seq<char>>, i: int)
    requires
        0 <= i < headers.len(),
    ensures
        http_laws::fault(headers, i) == fault_at(headers, i),
{
    lemma_names();
    let line = headers[i];
    lemma_header(line, "content-length"@);
    lemma_header(line, "transfer-encoding"@);
    assert forall|j: int| 0 <= j < i implies (http::content_length_header(
        #[trigger] headers[j],
    ) is Some) == is_length(headers[j]) by {
        lemma_header(headers[j], "content-length"@);
    }
    if is_length(line) {
        let value = http::content_length_header(line).unwrap();
        match text::parse_at_most(value, usize::MAX as nat) {
            Some(n) => {
                lemma_declares(line, n);
            },
            None => {
                assert forall|n: nat| n <= usize::MAX implies !#[trigger] declares(line, n) by {
                    lemma_declares(line, n);
                }
            },
        }
    }
}

/// What the headers as a whole say, character by character: there is exactly
/// one answer, and it is the one that is given.
pub proof fn law_headers(headers: Seq<Seq<char>>, r: Result<nat, ParseErrorView>)
    ensures
        headers_say(headers, http::body_length(headers)),
        headers_say(headers, r) ==> http::body_length(headers) == r,
{
    lemma_headers_say(headers);
    if headers_say(headers, r) {
        lemma_headers_unique(headers, r);
    }
}

proof fn lemma_headers_unique(headers: Seq<Seq<char>>, r: Result<nat, ParseErrorView>)
    requires
        headers_say(headers, r),
    ensures
        http::body_length(headers) == r,
{
    lemma_names();
    http_laws::law_first_fault_decides(headers);
    assert forall|i: int| 0 <= i < headers.len() implies #[trigger] http_laws::fault(headers, i)
        == fault_at(headers, i) by {
        lemma_fault(headers, i);
    }
    match r {
        Ok(n) => {
            assert forall|i: int| 0 <= i < headers.len() implies #[trigger] http_laws::fault(
                headers,
                i,
            ) is None by {
                assert(!is_encoding(headers[i]));
                if is_length(headers[i]) {
                    let k = choose|k: int|
                        0 <= k < headers.len() && n <= usize::MAX && declares(
                            #[trigger] headers[k],
                            n,
                        ) && forall|i: int|
                            0 <= i < headers.len() && i != k ==> !is_length(#[trigger] headers[i]);
                    assert(k == i);
                    assert(declares(headers[i], n));
                }
            }
            let m = http::body_length(headers)->Ok_0;
            http_laws::law_accepted_length_is_unambiguous(headers, m);
            if exists|k: int|
                0 <= k < headers.len() && n <= usize::MAX && declares(#[trigger] headers[k], n)
                    && forall|i: int|
                    0 <= i < headers.len() && i != k ==> !is_length(#[trigger] headers[i]) {
                let k = choose|k: int|
                    0 <= k < headers.len() && n <= usize::MAX && declares(#[trigger] headers[k], n)
                        && forall|i: int|
                        0 <= i < headers.len() && i != k ==> !is_length(#[trigger] headers[i]);
                lemma_declares(headers[k], n);
            } else {
                assert forall|i: int| 0 <= i < headers.len() implies http::content_length_header(
                    #[trigger] headers[i],
                ) is None by {
                    assert(!is_length(headers[i]));
                    lemma_header(headers[i], "content-length"@);
                }
            }
        },
        Err(e) => {
            let i = choose|i: int|
                0 <= i < headers.len() && #[trigger] fault_at(headers, i) == Some(e) && forall|
                    j: int,
                |
                    0 <= j < i ==> #[trigger] fault_at(headers, j) is None;
            assert(http_laws::fault(headers, i) == Some(e));
            assert forall|j: int| 0 <= j < i implies #[trigger] http_laws::fault(
                headers,
                j,
            ) is None by {
                assert(fault_at(headers, j) is None);
            }
        },
    }
}

proof fn lemma_headers_say(headers: Seq<Seq<char>>)
    ensures
        headers_say(headers, http::body_length(headers)),
{
    lemma_names();
    http_laws::law_first_fault_decides(headers);
    assert forall|i: int| 0 <= i < headers.len() implies #[trigger] http_laws::fault(headers, i)
        == fault_at(headers, i) by {
        lemma_fault(headers, i);
    }
    match http::body_length(headers) {
        Ok(n) => {
            http_laws::law_accepted_length_is_unambiguous(headers, n);
            assert forall|i: int| 0 <= i < headers.len() implies !is_encoding(
                #[trigger] headers[i],
            ) by {
                lemma_header(headers[i], "transfer-encoding"@);
            }
            assert forall|i: int| 0 <= i < headers.len() implies is_length(#[trigger] headers[i])
                == (http::content_length_header(headers[i]) is Some) by {
                lemma_header(headers[i], "content-length"@);
            }
            if exists|k: int| 0 <= k < headers.len() && is_length(#[trigger] headers[k]) {
                let k = choose|k: int| 0 <= k < headers.len() && is_length(#[trigger] headers[k]);
                lemma_declares(headers[k], n);
                assert(declares(headers[k], n));
            }
        },
        Err(e) => {
            let bad = choose|i: int|
                0 <= i < headers.len() && #[trigger] http_laws::fault(headers, i) is Some;
            let i = lemma_first_fault(headers, bad);
            assert(http_laws::fault(headers, i) is Some);
            assert(fault_at(headers, i) == Some(e));
        },
    }
}

/// Where some header is at fault one is the first.
proof fn lemma_first_fault(headers: Seq<Seq<char>>, bad: int) -> (i: int)
    requires
        0 <= bad < headers.len(),
        http_laws::fault(headers, bad) is Some,
        forall|i: int|
            0 <= i < headers.len() ==> #[trigger] http_laws::fault(headers, i) == fault_at(
                headers,
                i,
            ),
    ensures
        0 <= i <= bad,
        http_laws::fault(headers, i) is Some,
        forall|j: int| 0 <= j < i ==> #[trigger] http_laws::fault(headers, j) is None,
        forall|j: int| 0 <= j < i ==> #[trigger] fault_at(headers, j) is None,
    decreases bad,
{
    if forall|j: int| 0 <= j < bad ==> #[trigger] http_laws::fault(headers, j) is None {
        assert forall|j: int| 0 <= j < bad implies #[trigger] fault_at(headers, j) is None by {
            assert(http_laws::fault(headers, j) is None);
        }
        bad
    } else {
        let j = choose|j: int| 0 <= j < bad && #[trigger] http_laws::fault(headers, j) is Some;
        lemma_first_fault(headers, j)
    }
}

// ---------------------------------------------------------------------------
// Lines
// ---------------------------------------------------------------------------

/// A line with its ending: a bare line feed, or carriage return and line feed.
pub open spec fn ended(line: Seq<char>, bare: bool) -> Seq<char> {
    if bare {
        line.push('\n')
    } else {
        line.push('\r').push('\n')
    }
}

/// A line can have this ending: it holds no line feed, and a carriage return at
/// its end is not taken for part of a bare ending.
pub open spec fn is_line(line: Seq<char>, bare: bool) -> bool {
    !line.contains('\n') && (bare && line.len() > 0 ==> line.last() != '\r')
}

/// Lines that can have these endings.
pub open spec fn are_lines(ls: Seq<Seq<char>>, bare: Seq<bool>) -> bool {
    ls.len() == bare.len() && forall|i: int|
        0 <= i < ls.len() ==> is_line(#[trigger] ls[i], bare[i])
}

/// Lines in a row, each with its ending.
pub open spec fn text_of(ls: Seq<Seq<char>>, bare: Seq<bool>) -> Seq<char>
    decreases ls.len(),
{
    if ls.len() == 0 {
        Seq::empty()
    } else {
        text_of(ls.drop_last(), bare.drop_last()) + ended(ls.last(), bare.last())
    }
}

/// Where a head ends: with the text, or with an empty line and anything behind
/// it.
pub open spec fn ends_head(rest: Seq<char>) -> bool {
    ||| rest.len() == 0
    ||| rest[0] == '\n'
    ||| rest.len() >= 2 && rest[0] == '\r' && rest[1] == '\n'
}

/// Header lines: none of them is empty.
pub open spec fn are_headers(headers: Seq<Seq<char>>) -> bool {
    forall|i: int| 0 <= i < headers.len() ==> (#[trigger] headers[i]).len() > 0
}

proof fn lemma_ended_line(line: Seq<char>, bare: bool, rest: Seq<char>)
    requires
        is_line(line, bare),
    ensures
        http::lines(ended(line, bare) + rest) == seq![line] + http::lines(rest),
{
    if bare {
        http_laws::lemma_lines_concat(line, rest);
        http_laws::lemma_lines_single(line);
    } else {
        reveal_strlit("\r\n");
        http_laws::lemma_first_line(line, rest);
        assert(ended(line, bare) + rest == line + "\r\n"@ + rest);
    }
}

proof fn lemma_text_lines(ls: Seq<Seq<char>>, bare: Seq<bool>, rest: Seq<char>)
    requires
        are_lines(ls, bare),
    ensures
        http::lines(text_of(ls, bare) + rest) == ls + http::lines(rest),
    decreases ls.len(),
{
    if ls.len() == 0 {
        assert(text_of(ls, bare) + rest == rest);
        assert(ls + http::lines(rest) == http::lines(rest));
    } else {
        let init = ls.drop_last();
        let last = ended(ls.last(), bare.last());
        assert forall|i: int| 0 <= i < init.len() implies is_line(
            #[trigger] init[i],
            bare.drop_last()[i],
        ) by {
            assert(is_line(ls[i], bare[i]));
        }
        lemma_text_lines(init, bare.drop_last(), last + rest);
        assert(is_line(ls[ls.len() - 1], bare[ls.len() - 1]));
        lemma_ended_line(ls.last(), bare.last(), rest);
        assert(text_of(ls, bare) + rest == text_of(init, bare.drop_last()) + (last + rest));
        assert(init + (seq![ls.last()] + http::lines(rest)) == ls + http::lines(rest));
    }
}

proof fn lemma_block(headers: Seq<Seq<char>>)
    requires
        are_headers(headers),
    ensures
        http::header_block(headers) == headers,
    decreases headers.len(),
{
    if headers.len() > 0 {
        let rest = headers.drop_first();
        assert forall|i: int| 0 <= i < rest.len() implies (#[trigger] rest[i]).len() > 0 by {
            assert(headers[i + 1].len() > 0);
        }
        lemma_block(rest);
        assert(headers[0].len() > 0);
        assert(seq![headers[0]] + rest == headers);
    }
}

/// The first line of a head and its headers.
proof fn lemma_head_parts(
    first: Seq<char>,
    headers: Seq<Seq<char>>,
    bare: Seq<bool>,
    rest: Seq<char>,
)
    requires
        are_lines(seq![first] + headers, bare),
        are_headers(headers),
        ends_head(rest),
    ensures
        ({
            let ls = http::lines(text_of(seq![first] + headers, bare) + rest);
            &&& ls[0] == first
            &&& http::header_block(ls.skip(1)) == headers
        }),
{
    let all = seq![first] + headers;
    lemma_text_lines(all, bare, rest);
    let empty = Seq::<char>::empty();
    let ls = http::lines(text_of(all, bare) + rest);
    let tail = http::lines(rest);
    assert(tail.len() >= 1 && tail[0] == empty) by {
        if rest.len() == 0 {
            assert(rest == empty);
            http_laws::lemma_lines_single(empty);
            assert(http::strip_cr(empty) == empty);
        } else if rest[0] == '\n' {
            lemma_ended_line(empty, true, rest.skip(1));
            assert(rest == ended(empty, true) + rest.skip(1));
        } else {
            lemma_ended_line(empty, false, rest.skip(2));
            assert(rest == ended(empty, false) + rest.skip(2));
        }
    }
    assert(ls[0] == first);
    assert(ls.skip(1) == headers + seq![empty] + tail.skip(1));
    http_laws::lemma_block_ends(headers, tail.skip(1));
    lemma_block(headers);
}

// ---------------------------------------------------------------------------
// Requests
// ---------------------------------------------------------------------------

/// What a request with a supported method is read as: its method and path, and
/// the length that its headers give, or what is wrong with those.
pub open spec fn reads_as(
    r: Result<RequestHeadView, ParseErrorView>,
    method: Method,
    path: Seq<char>,
    headers: Seq<Seq<char>>,
) -> bool {
    match r {
        Ok(request) => {
            &&& request.method == method
            &&& request.path == path
            &&& headers_say(headers, Ok(request.content_length))
        },
        Err(e) => headers_say(headers, Err(e)),
    }
}

/// A request is read by its characters: the method is what stands before the
/// first space, the path what stands between the two, and the length of the body
/// is what the headers say, whatever other headers there are and whatever
/// follows the empty line.
pub proof fn law_request_head(
    method: Seq<char>,
    path: Seq<char>,
    version: Seq<char>,
    headers: Seq<Seq<char>>,
    bare: Seq<bool>,
    rest: Seq<char>,
)
    requires
        method.len() > 0 && !method.contains(' '),
        path.len() > 0 && !path.contains(' '),
        version.len() > 0 && !version.contains(' '),
        are_lines(seq![method + seq![' '] + path + seq![' '] + version] + headers, bare),
        are_headers(headers),
        ends_head(rest),
    ensures
        ({
            let first = method + seq![' '] + path + seq![' '] + version;
            let r = http::request_head(text_of(seq![first] + headers, bare) + rest);
            &&& method == seq!['P', 'U', 'T'] ==> reads_as(r, Method::Put, path, headers)
            &&& method == seq!['G', 'E', 'T'] ==> reads_as(r, Method::Get, path, headers)
            &&& method == seq!['D', 'E', 'L', 'E', 'T', 'E'] ==> reads_as(
                r,
                Method::Delete,
                path,
                headers,
            )
            &&& method != seq!['P', 'U', 'T'] && method != seq!['G', 'E', 'T'] && method
                != seq!['D', 'E', 'L', 'E', 'T', 'E'] ==> r == Err::<
                RequestHeadView,
                ParseErrorView,
            >(ParseErrorView::UnsupportedMethod(method))
        }),
{
    let first = method + seq![' '] + path + seq![' '] + version;
    lemma_head_parts(first, headers, bare, rest);
    assert(first == method.push(' ') + (path.push(' ') + version));
    text::lemma_split_concat(method, ' ', path.push(' ') + version);
    text::lemma_split_concat(path, ' ', version);
    text::lemma_split_single(method, ' ');
    text::lemma_split_single(path, ' ');
    text::lemma_split_single(version, ' ');
    assert(text::split(first, ' ') == seq![method, path, version]);
    lemma_headers_say(headers);
    reveal_strlit("PUT");
    reveal_strlit("GET");
    reveal_strlit("DELETE");
    assert("PUT"@ == seq!['P', 'U', 'T']);
    assert("GET"@ == seq!['G', 'E', 'T']);
    assert("DELETE"@ == seq!['D', 'E', 'L', 'E', 'T', 'E']);
    assert(seq!['P', 'U', 'T'][0] != seq!['G', 'E', 'T'][0]);
    assert(seq!['P', 'U', 'T'][0] != seq!['D', 'E', 'L', 'E', 'T', 'E'][0]);
    assert(seq!['G', 'E', 'T'][0] != seq!['D', 'E', 'L', 'E', 'T', 'E'][0]);
}

/// A head is malformed exactly when its first line is not made of three parts,
/// none of them empty, with one space between them, whatever follows it.
pub proof fn law_malformed(line: Seq<char>, bare: bool, rest: Seq<char>)
    requires
        is_line(line, bare),
    ensures
        http::request_head(ended(line, bare) + rest) == Err::<RequestHeadView, ParseErrorView>(
            ParseErrorView::MalformedRequestLine,
        ) <==> !exists|m: Seq<char>, p: Seq<char>, v: Seq<char>|
            http_laws::has_request_form(line, m, p, v),
{
    lemma_ended_line(line, bare, rest);
    http_laws::law_request_line(ended(line, bare) + rest);
    assert(http::lines(ended(line, bare) + rest)[0] == line);
}

/// A header that is about neither length nor encoding can be added anywhere: the
/// head reads the same, as a request and as a response.
pub proof fn law_other_headers_change_nothing(
    first: Seq<char>,
    before: Seq<Seq<char>>,
    header: Seq<char>,
    after: Seq<Seq<char>>,
    bare: Seq<bool>,
    bare_without: Seq<bool>,
    rest: Seq<char>,
)
    requires
        are_lines(seq![first] + (before + seq![header] + after), bare),
        are_lines(seq![first] + (before + after), bare_without),
        are_headers(before + seq![header] + after),
        are_headers(before + after),
        ends_head(rest),
        !is_length(header),
        !is_encoding(header),
    ensures
        http::request_head(text_of(seq![first] + (before + seq![header] + after), bare) + rest)
            == http::request_head(text_of(seq![first] + (before + after), bare_without) + rest),
        http::response_head(text_of(seq![first] + (before + seq![header] + after), bare) + rest)
            == http::response_head(text_of(seq![first] + (before + after), bare_without) + rest),
{
    lemma_head_parts(first, before + seq![header] + after, bare, rest);
    lemma_head_parts(first, before + after, bare_without, rest);
    lemma_other_header(before, header, after);
}

/// Another header has no part in the length of the body.
pub proof fn lemma_other_header(
    before: Seq<Seq<char>>,
    header: Seq<char>,
    after: Seq<Seq<char>>,
)
    requires
        !is_length(header),
        !is_encoding(header),
    ensures
        http::body_length(before + seq![header] + after) == http::body_length(before + after),
{
    lemma_names();
    lemma_header(header, "content-length"@);
    lemma_header(header, "transfer-encoding"@);
    lemma_insert_other(before, header, after);
}

proof fn lemma_insert_other(before: Seq<Seq<char>>, header: Seq<char>, after: Seq<Seq<char>>)
    requires
        http::content_length_header(header) is None,
        http::transfer_encoding_header(header) is None,
    ensures
        http::declared_length(before + seq![header] + after) == http::declared_length(
            before + after,
        ),
    decreases after.len(),
{
    let with = before + seq![header] + after;
    let without = before + after;
    if after.len() == 0 {
        assert(with.drop_last() == before);
        assert(without == before);
    } else {
        let init = after.drop_last();
        lemma_insert_other(before, header, init);
        assert(with.drop_last() == before + seq![header] + init);
        assert(without.drop_last() == before + init);
    }
}

/// The last line of a head may lack its ending: with CRLF behind it, instead of
/// nothing or of a lone carriage return, the head reads the same, as a request
/// and as a response.
pub proof fn law_last_line_may_lack_its_ending(
    ls: Seq<Seq<char>>,
    bare: Seq<bool>,
    last: Seq<char>,
)
    requires
        are_lines(ls, bare),
        !last.contains('\n'),
    ensures
        ({
            let line = if last.len() > 0 && last.last() == '\r' {
                last.drop_last()
            } else {
                last
            };
            let whole = text_of(ls, bare) + line + seq!['\r', '\n'];
            &&& http::request_head(text_of(ls, bare) + last) == http::request_head(whole)
            &&& http::response_head(text_of(ls, bare) + last) == http::response_head(whole)
        }),
{
    let line = if last.len() > 0 && last.last() == '\r' {
        last.drop_last()
    } else {
        last
    };
    let empty = Seq::<char>::empty();
    let whole = text_of(ls, bare) + line + seq!['\r', '\n'];
    lemma_text_lines(ls, bare, last);
    http_laws::lemma_lines_single(last);
    assert(http::strip_cr(last) == line);
    assert(!line.contains('\n')) by {
        if line.contains('\n') {
            let i = choose|i: int| 0 <= i < line.len() && line[i] == '\n';
            assert(last[i] == '\n');
        }
    }
    let tail = ended(line, false);
    assert(whole == text_of(ls, bare) + tail);
    lemma_text_lines(ls, bare, tail);
    lemma_ended_line(line, false, empty);
    assert(tail + empty == tail);
    http_laws::lemma_lines_single(empty);
    assert(http::strip_cr(empty) == empty);
    let l1 = http::lines(text_of(ls, bare) + last);
    let l2 = http::lines(whole);
    assert(l1 == ls + seq![line]);
    assert(l2 == ls + seq![line] + seq![empty]);
    assert(l1[0] == l2[0]);
    assert(l2.skip(1) == l1.skip(1) + seq![empty] + Seq::<Seq<char>>::empty());
    http_laws::lemma_block_ends(l1.skip(1), Seq::empty());
}

// ---------------------------------------------------------------------------
// Responses
// ---------------------------------------------------------------------------

/// A response is read by its characters: the status is what stands behind the
/// first space, up to the next one or the end of the line, and the length of the
/// body is what the headers say.
pub proof fn law_response_head(
    version: Seq<char>,
    code: Seq<char>,
    phrase: Seq<char>,
    headers: Seq<Seq<char>>,
    bare: Seq<bool>,
    rest: Seq<char>,
)
    requires
        !version.contains(' '),
        !code.contains(' '),
        phrase.len() > 0 ==> phrase[0] == ' ',
        are_lines(seq![version + seq![' '] + code + phrase] + headers, bare),
        are_headers(headers),
        ends_head(rest),
    ensures
        ({
            let first = version + seq![' '] + code + phrase;
            let r = http::response_head(text_of(seq![first] + headers, bare) + rest);
            &&& forall|from: int, status: nat|
                status <= 65535 && #[trigger] text_laws::number_from(code, from, status) ==> match r {
                    Ok(head) => head.status == status && headers_say(
                        headers,
                        Ok(head.content_length),
                    ),
                    Err(e) => headers_say(headers, Err(e)),
                }
            &&& (forall|from: int, status: nat|
                #[trigger] text_laws::number_from(code, from, status) ==> status > 65535) ==> r
                == Err::<ResponseHeadView, ParseErrorView>(ParseErrorView::MalformedRequestLine)
        }),
{
    let first = version + seq![' '] + code + phrase;
    lemma_head_parts(first, headers, bare, rest);
    assert(first == version.push(' ') + (code + phrase));
    text::lemma_split_concat(version, ' ', code + phrase);
    text::lemma_split_single(version, ' ');
    text::lemma_split_single(code, ' ');
    if phrase.len() > 0 {
        let more = phrase.skip(1);
        assert(code + phrase == code.push(' ') + more);
        text::lemma_split_concat(code, ' ', more);
    } else {
        assert(code + phrase == code);
    }
    let parts = text::split(first, ' ');
    assert(parts.len() >= 2 && parts[1] == code);
    lemma_headers_say(headers);
    assert forall|from: int, status: nat|
        status <= 65535 && #[trigger] text_laws::number_from(code, from, status) implies
        text::parse_at_most(code, u16::MAX as nat) == Some(status) by {
        text_laws::law_parse(code, u16::MAX as nat, status);
    }
    if text::parse_at_most(code, u16::MAX as nat) is Some {
        let status = text::parse_at_most(code, u16::MAX as nat).unwrap();
        text_laws::law_parse(code, u16::MAX as nat, status);
        let from = choose|from: int| #[trigger] text_laws::number_from(code, from, status);
        assert(text_laws::number_from(code, from, status));
    }
}

/// A status line without a space has no status.
pub proof fn law_status_line_needs_space(line: Seq<char>, bare: bool, rest: Seq<char>)
    requires
        is_line(line, bare),
        !line.contains(' '),
    ensures
        http::response_head(ended(line, bare) + rest) == Err::<ResponseHeadView, ParseErrorView>(
            ParseErrorView::MalformedRequestLine,
        ),
{
    lemma_ended_line(line, bare, rest);
    text::lemma_split_single(line, ' ');
    assert(http::lines(ended(line, bare) + rest)[0] == line);
}

// ---------------------------------------------------------------------------
// Paths
// ---------------------------------------------------------------------------

/// A name in a path: not empty, not `.` and not `..`, and without slashes and
/// control characters. Nothing else is asked of it.
pub open spec fn is_name(s: Seq<char>) -> bool {
    &&& s.len() > 0
    &&& s != seq!['.']
    &&& s != seq!['.', '.']
    &&& forall|i: int|
        0 <= i < s.len() ==> #[trigger] s[i] != '/' && !(s[i] as int <= 31) && !(127 <= s[i] as int
            <= 159)
}

/// The path of bucket and key: each after a slash.
pub open spec fn path_of(bucket: Seq<char>, key: Seq<char>) -> Seq<char> {
    seq!['/'] + bucket + seq!['/'] + key
}

/// What stands between the slashes of a key are names.
pub open spec fn is_key(key: Seq<char>) -> bool {
    forall|i: int| 0 <= i < text::split(key, '/').len() ==> is_name(#[trigger] text::split(key, '/')[i])
}

/// A path names an object exactly when it is the path of a bucket that is a name
/// and a key that is made of names.
pub proof fn law_target(path: Seq<char>, bucket: Seq<char>, key: Seq<char>)
    ensures
        http::target_of(path) == Some(TargetView { bucket, key }) <==> path == path_of(bucket, key)
            && is_name(bucket) && is_key(key),
{
    reveal_strlit("/");
    reveal_strlit(".");
    reveal_strlit("..");
    assert("."@ == seq!['.'] && ".."@ == seq!['.', '.'] && "/"@ == seq!['/']);
    http_laws::law_target(path, bucket, key);
    assert(http::object_path(bucket, key) == path_of(bucket, key));
    lemma_name(bucket);
    lemma_key(key);
}

/// Every bucket and every key of names can be reached, by the path with a slash
/// before each name.
pub proof fn law_every_name_is_a_target(bucket: Seq<char>, names: Seq<Seq<char>>)
    requires
        is_name(bucket),
        names.len() >= 1,
        forall|i: int| 0 <= i < names.len() ==> is_name(#[trigger] names[i]),
    ensures
        http::target_of(path_of(bucket, text::join(names, '/'))) == Some(
            TargetView { bucket, key: text::join(names, '/') },
        ),
{
    assert forall|i: int| 0 <= i < names.len() implies !(#[trigger] names[i]).contains('/') by {
        assert(is_name(names[i]));
    }
    text_laws::law_split_gives_pieces(names, '/');
    law_target(path_of(bucket, text::join(names, '/')), bucket, text::join(names, '/'));
}

/// A name is what a bucket can be.
pub proof fn lemma_name(s: Seq<char>)
    ensures
        http::is_valid_bucket(s) <==> is_name(s),
{
    reveal_strlit(".");
    reveal_strlit("..");
    assert("."@ == seq!['.'] && ".."@ == seq!['.', '.']);
    if http::is_valid_bucket(s) {
        assert forall|i: int| 0 <= i < s.len() implies #[trigger] s[i] != '/' && !(s[i] as int
            <= 31) && !(127 <= s[i] as int <= 159) by {
            assert(s.contains(s[i]));
            assert(!text::is_control_char(s[i]));
        }
    }
}

/// A key that is made of names is what a key can be.
pub proof fn lemma_key(key: Seq<char>)
    ensures
        http::is_safe_key_text(key) <==> is_key(key),
{
    reveal_strlit(".");
    reveal_strlit("..");
    assert("."@ == seq!['.'] && ".."@ == seq!['.', '.']);
    let parts = text::split(key, '/');
    text_laws::law_split(key, '/');
    if http::is_safe_key_text(key) {
        assert forall|i: int| 0 <= i < parts.len() implies is_name(#[trigger] parts[i]) by {
            assert(http::is_plain_segment(parts[i]));
            assert forall|t: int| 0 <= t < parts[i].len() implies #[trigger] parts[i][t] != '/'
                && !(parts[i][t] as int <= 31) && !(127 <= parts[i][t] as int <= 159) by {
                assert(parts[i].contains(parts[i][t]));
                lemma_join_holds(parts, '/', i, t);
                let p = choose|p: int|
                    0 <= p < key.len() && #[trigger] key[p] == parts[i][t];
                assert(!text::is_control_char(key[p]));
            }
        }
    }
    if is_key(key) {
        assert forall|p: int| 0 <= p < key.len() implies !text::is_control_char(
            #[trigger] key[p],
        ) by {
            if key[p] != '/' {
                lemma_join_made_of(parts, '/', p);
                let (i, t) = choose|i: int, t: int|
                    0 <= i < parts.len() && 0 <= t < parts[i].len() && #[trigger] parts[i][t]
                        == key[p];
                assert(is_name(parts[i]));
            }
        }
        assert forall|i: int| 0 <= i < parts.len() implies http::is_plain_segment(
            #[trigger] parts[i],
        ) by {
            assert(is_name(parts[i]));
        }
    }
}

/// Every character of a piece is in the whole.
proof fn lemma_join_holds(pieces: Seq<Seq<char>>, sep: char, i: int, t: int)
    requires
        0 <= i < pieces.len(),
        0 <= t < pieces[i].len(),
    ensures
        exists|p: int|
            0 <= p < text::join(pieces, sep).len() && #[trigger] text::join(pieces, sep)[p]
                == pieces[i][t],
    decreases pieces.len(),
{
    let whole = text::join(pieces, sep);
    if pieces.len() == 1 {
        assert(whole[t] == pieces[i][t]);
    } else {
        let init = pieces.drop_last();
        let before = text::join(init, sep);
        if i < init.len() {
            lemma_join_holds(init, sep, i, t);
            let p = choose|p: int| 0 <= p < before.len() && #[trigger] before[p] == init[i][t];
            assert(whole[p] == before[p]);
        } else {
            assert(whole[before.len() + 1 + t] == pieces[i][t]);
        }
    }
}

/// Every character of the whole is a separator or in a piece.
proof fn lemma_join_made_of(pieces: Seq<Seq<char>>, sep: char, p: int)
    requires
        0 <= p < text::join(pieces, sep).len(),
        text::join(pieces, sep)[p] != sep,
    ensures
        exists|i: int, t: int|
            0 <= i < pieces.len() && 0 <= t < pieces[i].len() && #[trigger] pieces[i][t]
                == text::join(pieces, sep)[p],
    decreases pieces.len(),
{
    let whole = text::join(pieces, sep);
    if pieces.len() == 1 {
        assert(pieces[0][p] == whole[p]);
    } else {
        let init = pieces.drop_last();
        let before = text::join(init, sep);
        if p < before.len() {
            assert(before[p] == whole[p]);
            lemma_join_made_of(init, sep, p);
            let (i, t) = choose|i: int, t: int|
                0 <= i < init.len() && 0 <= t < init[i].len() && #[trigger] init[i][t] == before[p];
            assert(pieces[i][t] == init[i][t]);
        } else {
            assert(p > before.len());
            assert(pieces[pieces.len() - 1][p - before.len() - 1] == whole[p]);
        }
    }
}

// ---------------------------------------------------------------------------
// The bytes of messages
// ---------------------------------------------------------------------------

/// The bytes of a response: its status line, the length of exactly this body,
/// the notice that the connection closes, an empty line, and the whole body.
pub proof fn law_response_bytes(status: u16, body: Seq<u8>)
    ensures
        ({
            let phrase = match status {
                200 => "OK"@,
                204 => "No Content"@,
                400 => "Bad Request"@,
                404 => "Not Found"@,
                413 => "Payload Too Large"@,
                500 => "Internal Server Error"@,
                501 => "Not Implemented"@,
                _ => "Status"@,
            };
            http::message(http::status_line(status), body) == encode_utf8(
                "HTTP/1.1 "@ + text::decimal(status as nat) + " "@ + phrase
                    + "\r\nContent-Length: "@ + text::decimal(body.len())
                    + "\r\nConnection: close\r\n\r\n"@,
            ) + body
        }),
{
    lemma_head_text(http::status_line(status), body.len());
}

/// The bytes of a request: its method, path and version, the length of exactly
/// this body, the notice that the connection closes, an empty line, and the
/// whole body.
pub proof fn law_request_bytes(method: Method, path: Seq<char>, body: Seq<u8>)
    ensures
        ({
            let name = match method {
                Method::Put => "PUT "@,
                Method::Get => "GET "@,
                Method::Delete => "DELETE "@,
            };
            http::message(http::request_line(method, path), body) == encode_utf8(
                name + path + " HTTP/1.1\r\nContent-Length: "@ + text::decimal(body.len())
                    + "\r\nConnection: close\r\n\r\n"@,
            ) + body
        }),
{
    lemma_head_text(http::request_line(method, path), body.len());
    reveal_strlit("PUT");
    reveal_strlit("GET");
    reveal_strlit("DELETE");
    reveal_strlit(" ");
    reveal_strlit("PUT ");
    reveal_strlit("GET ");
    reveal_strlit("DELETE ");
    reveal_strlit(" HTTP/1.1");
    reveal_strlit("\r\nContent-Length: ");
    reveal_strlit(" HTTP/1.1\r\nContent-Length: ");
    assert("PUT "@ == "PUT"@ + " "@);
    assert("GET "@ == "GET"@ + " "@);
    assert("DELETE "@ == "DELETE"@ + " "@);
    assert(" HTTP/1.1\r\nContent-Length: "@ == " HTTP/1.1"@ + "\r\nContent-Length: "@);
    let line = http::request_line(method, path);
    let name = match method {
        Method::Put => "PUT "@,
        Method::Get => "GET "@,
        Method::Delete => "DELETE "@,
    };
    assert(line + "\r\nContent-Length: "@ == name + path + " HTTP/1.1\r\nContent-Length: "@);
}

proof fn lemma_head_text(first: Seq<char>, n: nat)
    ensures
        http::message_head(first, n) == first + "\r\nContent-Length: "@ + text::decimal(n)
            + "\r\nConnection: close\r\n\r\n"@,
{
    reveal_strlit("\r\n");
    reveal_strlit("Content-Length: ");
    reveal_strlit("Connection: close");
    reveal_strlit("\r\nContent-Length: ");
    reveal_strlit("\r\nConnection: close\r\n\r\n");
    assert("\r\nContent-Length: "@ == "\r\n"@ + "Content-Length: "@);
    assert("\r\nConnection: close\r\n\r\n"@ == "\r\n"@ + "Connection: close"@ + "\r\n"@ + "\r\n"@);
    assert(http::message_head(first, n) == first + "\r\nContent-Length: "@ + text::decimal(n)
        + "\r\nConnection: close\r\n\r\n"@);
}

/// The messages for a person to read.
pub proof fn law_parse_error_messages(method: Seq<char>)
    ensures
        ParseErrorView::MalformedRequestLine.message() == "malformed request line"@,
        ParseErrorView::UnsupportedMethod(method).message() == "unsupported method: "@ + method,
        ParseErrorView::InvalidContentLength.message() == "invalid content-length"@,
        ParseErrorView::ConflictingContentLength.message() == "conflicting content-length"@,
        ParseErrorView::UnsupportedTransferEncoding.message() == "unsupported transfer-encoding"@,
{
}

} // verus!
