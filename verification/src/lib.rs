use vstd::prelude::*;

pub mod control;
pub mod lines;
pub mod protocol;
pub mod storage;

use crate::lines::ascii_chars;
use crate::lines::line_seq;
use crate::protocol::decode_spec;
use crate::protocol::get_request;
use crate::protocol::lemma_get_round_trip;
use crate::protocol::StringProtocol;
use crate::storage::read_ok;
use crate::storage::Storage;

verus! {

/// A client request, decoded from one raw request line.
#[allow(non_camel_case_types)]
#[derive(Clone, Copy, Debug, PartialEq, Eq, Structural)]
pub enum Request {
    QUIT,
    SHUTDOWN,
    GET(u64),
    ERRONEOUS,
}

/// A server reply, to be encoded into one raw reply line.
#[allow(non_camel_case_types)]
#[derive(Clone, Debug, PartialEq, Eq)]
pub enum Response {
    LINE(String),
    ERROR,
}

/// Failure surfaced to the caller when the server cannot start or an
/// underlying I/O operation fails.
#[derive(Clone, Copy, Debug, PartialEq, Eq, Structural)]
pub enum LTPError {
    GenericFailure,
    GenericIOFailure,
}

/// What the session loop does with one decoded request before any blocking
/// work: close quietly, close after firing the shutdown event, look a line
/// up in storage, or answer at once.
#[derive(Clone, Debug, PartialEq, Eq)]
pub enum Step {
    CloseQuiet,
    CloseAndSignal,
    Lookup(u64),
    Respond(Response),
}

pub open spec fn dispatch_spec(request: Request) -> Step {
    match request {
        Request::QUIT => Step::CloseQuiet,
        Request::SHUTDOWN => Step::CloseAndSignal,
        Request::GET(n) => Step::Lookup(n),
        Request::ERRONEOUS => Step::Respond(Response::ERROR),
    }
}

/// The dispatch decision of the session loop for one decoded request: `QUIT`
/// closes with no reply and no shutdown, `SHUTDOWN` closes after firing the
/// shutdown event, `GET` asks storage for its line, and a malformed request
/// is answered with an error.
pub fn dispatch(request: Request) -> (s: Step)
    ensures
        s == dispatch_spec(request),
{
    match request {
        Request::QUIT => Step::CloseQuiet,
        Request::SHUTDOWN => Step::CloseAndSignal,
        Request::GET(n) => Step::Lookup(n),
        Request::ERRONEOUS => Step::Respond(Response::ERROR),
    }
}

pub open spec fn response_for_spec(line: Option<String>) -> Response {
    match line {
        Some(l) => Response::LINE(l),
        None => Response::ERROR,
    }
}

/// Map a lookup result onto the reply: a present line is served, an absent
/// one is an error.
pub fn response_for(line: Option<String>) -> (r: Response)
    ensures
        r == response_for_spec(line),
{
    match line {
        Some(l) => Response::LINE(l),
        None => Response::ERROR,
    }
}

/// What a session answers on the wire for one raw request line against file
/// bytes `c`: nothing before closing (`QUIT` and `SHUTDOWN`), or exactly one
/// reply line. The answer is a function of the file bytes and the raw
/// request alone.
pub open spec fn reply_spec(c: Seq<u8>, raw: Seq<char>) -> Option<Seq<char>> {
    match decode_spec(raw) {
        Request::QUIT => None,
        Request::SHUTDOWN => None,
        Request::GET(n) => if read_ok(c, n) {
            Some("OK\r\n"@ + ascii_chars(line_seq(c, n as int - 1)))
        } else {
            Some("ERR\r\n"@)
        },
        Request::ERRONEOUS => Some("ERR\r\n"@),
    }
}

/// How one dispatch cycle of the session loop ends: the connection closes
/// with no bytes written (quietly, or after firing the shutdown event), or
/// one encoded reply line is to be written back.
#[derive(Clone, Debug, PartialEq, Eq)]
pub enum RequestOutcome {
    CloseQuiet,
    CloseShutdown,
    Send(String),
}

/// One full dispatch cycle of the session loop against the backing file's
/// bytes: decode the raw line, consult storage for a `GET`, encode the
/// reply. Two sessions issuing the same request over the same file receive
/// identical outcomes, whatever stride their shared index was built with.
pub fn handle_request(storage: &Storage, content: &Vec<u8>, raw: String) -> (out: RequestOutcome)
    requires
        storage.consistent_with(content@),
    ensures
        out matches RequestOutcome::Send(payload) ==> reply_spec(content@, raw@) == Some(payload@),
        out is Send <==> reply_spec(content@, raw@) is Some,
        out is CloseQuiet <==> decode_spec(raw@) == Request::QUIT,
        out is CloseShutdown <==> decode_spec(raw@) == Request::SHUTDOWN,
{
    let protocol = StringProtocol::new();
    let request = protocol.decode(raw);
    match dispatch(request) {
        Step::CloseQuiet => RequestOutcome::CloseQuiet,
        Step::CloseAndSignal => RequestOutcome::CloseShutdown,
        Step::Lookup(n) => {
            let line = storage.read(content, n);
            let response = response_for(line);
            RequestOutcome::Send(protocol.encode(response))
        },
        Step::Respond(response) => RequestOutcome::Send(protocol.encode(response)),
    }
}

/// Replies are deterministic in the file bytes and the raw request: any two
/// session outcomes that meet `handle_request`'s contract for the same
/// inputs carry the same reply, so concurrent identical `GET`s are answered
/// identically.
pub proof fn lemma_reply_deterministic(
    c: Seq<u8>,
    raw: Seq<char>,
    r1: Option<Seq<char>>,
    r2: Option<Seq<char>>,
)
    requires
        r1 == reply_spec(c, raw),
        r2 == reply_spec(c, raw),
    ensures
        r1 == r2,
{
}

/// Round trip for `GET`: the request built from any valid line number
/// decodes back to that number, and the session's reply is the `OK` banner
/// followed by the line's text when the line exists, and the bare error
/// banner otherwise.
pub proof fn lemma_get_reply_round_trip(c: Seq<u8>, n: u64)
    requires
        1 <= n <= 0x7fff_ffff_ffff_ffff,
    ensures
        read_ok(c, n) ==> reply_spec(c, get_request(n as nat)) == Some(
            "OK\r\n"@ + ascii_chars(line_seq(c, n as int - 1)),
        ),
        !read_ok(c, n) ==> reply_spec(c, get_request(n as nat)) == Some("ERR\r\n"@),
{
    lemma_get_round_trip(n);
}

} // verus!
