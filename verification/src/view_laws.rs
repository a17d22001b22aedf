//! What stands for a value in the contracts is all of the value: no two values
//! that differ look the same.

use vstd::prelude::*;

use crate::bench;
use crate::bench::{Args, ArgsView, Config};
use crate::client;
use crate::client::{Call, ClientError, ClientErrorView};
use crate::http;
use crate::http::{
    ParseError, ParseErrorView, RequestHead, RequestHeadView, ResponseHead, ResponseHeadView,
    Target, TargetView,
};
use crate::server::{Action, ActionView, Event, EventView, Session, SessionView};
use crate::store;
use crate::store::{Location, ValueLoc};
use crate::text;

verus! {

/// A request head by its method, its path and its length.
pub proof fn law_request_head_view(h: RequestHead)
    ensures
        h@.method == h.method,
        h@.path == h.path@,
        h@.content_length == h.content_length,
{
}

/// A response head by its status and its length.
pub proof fn law_response_head_view(h: ResponseHead)
    ensures
        h@.status == h.status,
        h@.content_length == h.content_length,
{
}

/// A target by its bucket and its key.
pub proof fn law_target_view(t: Target)
    ensures
        t@.bucket == t.bucket@,
        t@.key == t.key@,
{
}

/// A reason by which of them it is, with the method where there is one.
pub proof fn law_parse_error_view(e: ParseError)
    ensures
        match e {
            ParseError::MalformedRequestLine => e@ == ParseErrorView::MalformedRequestLine,
            ParseError::UnsupportedMethod(m) => e@ == ParseErrorView::UnsupportedMethod(m@),
            ParseError::InvalidContentLength => e@ == ParseErrorView::InvalidContentLength,
            ParseError::ConflictingContentLength => e@ == ParseErrorView::ConflictingContentLength,
            ParseError::UnsupportedTransferEncoding => e@
                == ParseErrorView::UnsupportedTransferEncoding,
        },
{
}

/// Results by what they hold: a head as a head, a reason as that reason, a
/// target as that target.
pub proof fn law_http_results(h: RequestHead, r: ResponseHead, e: ParseError, t: Target)
    ensures
        http::head_view(Ok(h)) == Ok::<RequestHeadView, ParseErrorView>(h@),
        http::head_view(Err(e)) == Err::<RequestHeadView, ParseErrorView>(e@),
        http::response_view(Ok(r)) == Ok::<ResponseHeadView, ParseErrorView>(r@),
        http::response_view(Err(e)) == Err::<ResponseHeadView, ParseErrorView>(e@),
        http::target_view(Some(t)) == Some(t@),
        http::target_view(None) == None::<TargetView>,
{
}

/// A reason of the client by which of them it is, with all that it says.
pub proof fn law_client_error_view(e: ClientError)
    ensures
        match e {
            ClientError::NoHeaderTerminator => e@ == ClientErrorView::NoHeaderTerminator,
            ClientError::NonUtf8Head => e@ == ClientErrorView::NonUtf8Head,
            ClientError::BadHead(p) => e@ == ClientErrorView::BadHead(p@),
            ClientError::Truncated { available, expected } => e@ == (ClientErrorView::Truncated {
                available: available as nat,
                expected: expected as nat,
            }),
            ClientError::UnexpectedStatus(s) => e@ == ClientErrorView::UnexpectedStatus(s),
        },
{
}

/// Results of the client by what they hold.
pub proof fn law_client_results(v: Vec<u8>, e: ClientError)
    ensures
        client::done_view(Ok(())) == Ok::<(), ClientErrorView>(()),
        client::done_view(Err(e)) == Err::<(), ClientErrorView>(e@),
        client::value_view(Ok(Some(v))) == Ok::<Option<Seq<u8>>, ClientErrorView>(Some(v@)),
        client::value_view(Ok(None)) == Ok::<Option<Seq<u8>>, ClientErrorView>(None),
        client::value_view(Err(e)) == Err::<Option<Seq<u8>>, ClientErrorView>(e@),
{
}

/// A call by its address and all its bytes.
pub proof fn law_call_view(c: Call)
    ensures
        c@.addr == c.addr@,
        c@.request == c.request@,
{
}

/// A place by its offset and its size.
pub proof fn law_location_view(l: ValueLoc)
    ensures
        l@ == (Location { offset: l.offset as nat, size: l.size as nat }),
{
}

/// An index by all its keys, each with its place.
pub proof fn law_index_view(index: Map<Seq<char>, ValueLoc>, key: Seq<char>)
    ensures
        store::index_view(index).contains_key(key) == index.contains_key(key),
        index.contains_key(key) ==> store::index_view(index)[key] == index[key]@,
{
}

/// An action by which of them it is, with all that it asks for.
pub proof fn law_action_view(a: Action)
    ensures
        match a {
            Action::ReadLine { limit } => a@ == (ActionView::ReadLine { limit: limit as nat }),
            Action::ReadBody(n) => a@ == ActionView::ReadBody(n as nat),
            Action::Put { bucket, key, value } => a@ == (ActionView::Put {
                bucket: bucket@,
                key: key@,
                value: value@,
            }),
            Action::Get { bucket, key } => a@ == (ActionView::Get { bucket: bucket@, key: key@ }),
            Action::Delete { bucket, key } => a@ == (ActionView::Delete {
                bucket: bucket@,
                key: key@,
            }),
            Action::Respond { status, body } => a@ == (ActionView::Respond { status, body: body@ }),
            Action::Close => a@ == ActionView::Close,
        },
{
}

/// An event by which of them it is, with all that it brings.
pub proof fn law_event_view(e: Event)
    ensures
        match e {
            Event::Line(line) => e@ == EventView::Line(line@),
            Event::EndOfInput => e@ == EventView::EndOfInput,
            Event::Body(body) => e@ == EventView::Body(body@),
            Event::Stored => e@ == EventView::Stored,
            Event::Found(value) => e@ == EventView::Found(value@),
            Event::Missing => e@ == EventView::Missing,
            Event::Deleted => e@ == EventView::Deleted,
        },
{
}

/// A connection by where it stands, with all that it keeps.
pub proof fn law_session_view(s: Session)
    ensures
        match s {
            Session::Head { text, budget } => s@ == (SessionView::Head {
                text: text@,
                budget: budget as nat,
            }),
            Session::Body { request } => s@ == (SessionView::Body { request: request@ }),
            Session::Putting => s@ == SessionView::Putting,
            Session::Getting => s@ == SessionView::Getting,
            Session::Deleting => s@ == SessionView::Deleting,
            Session::Closed => s@ == SessionView::Closed,
        },
{
}

/// The options of a run, each by itself.
pub proof fn law_config_view(c: Config)
    ensures
        c@.ops == c.ops,
        c@.value_size == c.value_size,
        match c.dir {
            Some(dir) => c@.dir == Some(dir@),
            None => c@.dir is None,
        },
{
}

/// What arguments ask for by which of them it is, with all that it says.
pub proof fn law_args_view(a: Args)
    ensures
        match a {
            Args::Run(config) => a@ == ArgsView::Run(config@),
            Args::Help => a@ == ArgsView::Help,
            Args::Unknown(arg) => a@ == ArgsView::Unknown(arg@),
            Args::MissingValue(flag) => a@ == ArgsView::MissingValue(flag@),
            Args::InvalidNumber(flag, raw) => a@ == ArgsView::InvalidNumber(flag@, raw@),
            Args::ZeroOps => a@ == ArgsView::ZeroOps,
            Args::ZeroValueSize => a@ == ArgsView::ZeroValueSize,
        },
{
}

/// Lists of texts by all their texts, in order.
pub proof fn law_list_views(args: Seq<String>, pieces: Seq<Vec<char>>)
    ensures
        bench::arg_texts(args).len() == args.len(),
        forall|i: int| 0 <= i < args.len() ==> #[trigger] bench::arg_texts(args)[i] == args[i]@,
        text::views(pieces).len() == pieces.len(),
        forall|i: int| 0 <= i < pieces.len() ==> #[trigger] text::views(pieces)[i] == pieces[i]@,
{
}

} // verus!
