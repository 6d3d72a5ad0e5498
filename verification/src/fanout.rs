//! The fan-out of one chat request: what is added to its body, when its two
//! handles are given back, and what the client is told when it fails.
//!
//! The caller sends the request to both workers and reports what happens as
//! events; [`Context::on_event`] answers each with what to do next.

use vstd::prelude::*;
use vstd::string::*;
use crate::context::{Context, ContextView, LoadSlot, SelectError, ServerPair};
use crate::engines::{
    authority_of, host_of, json_insert_count, json_insert_text, json_members, json_remove,
    url_authority, url_host, JsonMember, JsonObject,
};
use crate::room::wrap;

verus! {

/// The status of every answer that reports a failure.
pub const ERROR_STATUS: u16 = 500;

/// Whether an HTTP status is in the success class.
pub open spec fn status_is_success(status: u16) -> bool {
    200 <= status < 300
}

/// Whether an HTTP status is in the success class.
pub fn is_success(status: u16) -> (ok: bool)
    ensures
        ok == status_is_success(status),
{
    200 <= status && status < 300
}

/// The fields that the balancer sets in the body of a chat request before it
/// goes to the two workers. A port that is `None` is left out of the body.
#[derive(Debug)]
pub struct Bootstrap {
    pub bootstrap_host: String,
    pub bootstrap_port: Option<u16>,
    pub bootstrap_room: u32,
    pub decode_rank: usize,
}

/// The members of a request's body once the fields of `bootstrap` are set:
/// `bootstrap_host`, `bootstrap_room` and `decode_rank` always, and
/// `bootstrap_port` where there is a port and not otherwise. Members of
/// these names are replaced; every other member stays as it was received.
pub open spec fn rewritten(
    members: Map<Seq<char>, JsonMember>,
    bootstrap: Bootstrap,
) -> Map<Seq<char>, JsonMember> {
    let with_host = members.insert("bootstrap_host"@, JsonMember::Text(bootstrap.bootstrap_host@));
    let with_port = match bootstrap.bootstrap_port {
        Some(port) => with_host.insert("bootstrap_port"@, JsonMember::Count(port as nat)),
        None => with_host.remove("bootstrap_port"@),
    };
    with_port.insert(
        "bootstrap_room"@,
        JsonMember::Count(bootstrap.bootstrap_room as nat),
    ).insert("decode_rank"@, JsonMember::Count(bootstrap.decode_rank as nat))
}

/// Sets the fields of `bootstrap` in the body of a chat request.
pub fn rewrite_body(body: &mut JsonObject, bootstrap: &Bootstrap)
    ensures
        json_members(*final(body)) == rewritten(json_members(*old(body)), *bootstrap),
{
    json_insert_text(body, "bootstrap_host", bootstrap.bootstrap_host.as_str());
    match bootstrap.bootstrap_port {
        Some(port) => {
            json_insert_count(body, "bootstrap_port", port as u64);
        },
        None => {
            json_remove(body, "bootstrap_port");
        },
    }
    json_insert_count(body, "bootstrap_room", bootstrap.bootstrap_room as u64);
    json_insert_count(body, "decode_rank", bootstrap.decode_rank as u64);
}

/// How far the fan-out of a request has come.
#[derive(Clone, Copy, Debug, PartialEq, Eq, Structural)]
pub enum Phase {
    /// The request is on its way to both workers; no response head is in.
    Dispatching,
    /// The prefill worker accepted; the decode response goes to the client.
    Streaming,
    /// The request is over and its handles are given back.
    Closed,
}

/// What the caller saw happen.
#[derive(Clone, Copy, Debug, PartialEq, Eq, Structural)]
pub enum Event {
    /// Both response heads are in; this is the prefill worker's status.
    Heads { prefill_status: u16 },
    /// The body could not be written, a worker could not be reached, or the
    /// prefill response could not be read to its end.
    Failed,
    /// The decode stream is over: it ended, broke, or the client went away.
    StreamEnded,
}

/// Why a request failed after a pair was picked.
#[derive(Clone, Copy, Debug, PartialEq, Eq, Structural)]
pub enum Failure {
    /// The prefill worker's URL has no host.
    NoHost,
    /// The prefill worker answered with this status, which is no success.
    PrefillRejected(u16),
    /// The request or a response was lost on the way.
    Transport,
}

/// What the caller is to do next.
#[derive(Clone, Copy, Debug, PartialEq, Eq, Structural)]
pub enum Action {
    /// Read the prefill response to its end and drop it, then hand the
    /// decode response to the client as it comes.
    Forward,
    /// Drop both upstream requests and answer with [`ERROR_STATUS`].
    Fail(Failure),
    /// Drop what is left of the upstream requests; nothing goes to the
    /// client any more.
    Close,
    /// Nothing.
    Ignore,
}

/// The fan-out of one request: where it goes, the handles it holds and how
/// far it has come. A request goes to a worker's authority, which is also
/// the `host` header of the request to that worker.
#[derive(Debug)]
pub struct Exchange {
    pub prefill_authority: String,
    pub decode_authority: String,
    pub prefill_slot: LoadSlot,
    pub decode_slot: LoadSlot,
    pub phase: Phase,
}

/// Where a request to a worker goes: the authority of the worker's URL, and
/// the empty text, to which nothing connects, where the URL has none.
pub open spec fn authority_text(authority: Option<Seq<char>>) -> Seq<char> {
    match authority {
        Some(text) => text,
        None => Seq::empty(),
    }
}

/// Where a request to a worker goes. See [`authority_text`].
pub fn authority_or_empty(authority: Option<String>) -> (text: String)
    ensures
        text@ == authority_text(
            match authority {
                Some(given) => Some(given@),
                None => None,
            },
        ),
{
    match authority {
        Some(given) => given,
        None => String::new(),
    }
}

/// The phase that follows `phase` on `event`, and what to do.
pub open spec fn step(phase: Phase, event: Event) -> (Phase, Action) {
    match phase {
        Phase::Dispatching => match event {
            Event::Heads { prefill_status } => if status_is_success(prefill_status) {
                (Phase::Streaming, Action::Forward)
            } else {
                (Phase::Closed, Action::Fail(Failure::PrefillRejected(prefill_status)))
            },
            Event::Failed => (Phase::Closed, Action::Fail(Failure::Transport)),
            Event::StreamEnded => (Phase::Closed, Action::Close),
        },
        Phase::Streaming => match event {
            Event::Heads { .. } => (Phase::Streaming, Action::Ignore),
            Event::Failed => (Phase::Closed, Action::Fail(Failure::Transport)),
            Event::StreamEnded => (Phase::Closed, Action::Close),
        },
        Phase::Closed => (Phase::Closed, Action::Ignore),
    }
}

/// The state once both handles of an exchange are given back.
pub open spec fn both_released(view: ContextView, exchange: Exchange) -> ContextView {
    view.released(exchange.prefill_slot).released(exchange.decode_slot)
}

impl Context {
    /// Starts the fan-out for a pair whose prefill worker has `host` as the
    /// host of its URL, where the two workers have the given authorities:
    /// takes the next room and names what goes into the request's body.
    /// Where there is no host, no room is taken and both handles of the pair
    /// are given back.
    pub fn open_exchange_with(
        &mut self,
        pair: &ServerPair,
        host: Option<String>,
        prefill_authority: String,
        decode_authority: String,
    ) -> (opened: Result<(Bootstrap, Exchange), Failure>)
        requires
            old(self).wf(),
        ensures
            final(self).wf(),
            match opened {
                Ok((bootstrap, exchange)) => {
                    &&& host == Some(bootstrap.bootstrap_host)
                    &&& bootstrap.bootstrap_port == pair.bootstrap_port
                    &&& bootstrap.bootstrap_room == wrap(old(self)@.room_id + pair.prefill_rank)
                    &&& bootstrap.decode_rank == pair.decode_rank
                    &&& exchange.prefill_authority == prefill_authority
                    &&& exchange.decode_authority == decode_authority
                    &&& exchange.prefill_slot == pair.prefill_server_guard
                    &&& exchange.decode_slot == pair.decode_server_guard
                    &&& exchange.phase == Phase::Dispatching
                    &&& final(self)@ == (ContextView {
                        room_id: wrap(old(self)@.room_id + old(self)@.prefill_dp_size),
                        ..old(self)@
                    })
                },
                Err(failure) => {
                    &&& failure == Failure::NoHost
                    &&& host is None
                    &&& final(self)@ == old(self)@.released(pair.prefill_server_guard).released(
                        pair.decode_server_guard,
                    )
                },
            },
    {
        match host {
            None => {
                self.release(pair.prefill_server_guard);
                self.release(pair.decode_server_guard);
                Err(Failure::NoHost)
            },
            Some(bootstrap_host) => {
                let bootstrap_room = self.next_room(pair.prefill_rank);
                Ok(
                    (
                        Bootstrap {
                            bootstrap_host,
                            bootstrap_port: pair.bootstrap_port,
                            bootstrap_room,
                            decode_rank: pair.decode_rank,
                        },
                        Exchange {
                            prefill_authority,
                            decode_authority,
                            prefill_slot: pair.prefill_server_guard,
                            decode_slot: pair.decode_server_guard,
                            phase: Phase::Dispatching,
                        },
                    ),
                )
            },
        }
    }

    /// Starts the fan-out for a pair: [`Self::open_exchange_with`] the host
    /// of the prefill worker's URL and the authorities of both workers'
    /// URLs.
    pub fn open_exchange(&mut self, pair: &ServerPair) -> (opened: Result<
        (Bootstrap, Exchange),
        Failure,
    >)
        requires
            old(self).wf(),
        ensures
            final(self).wf(),
            match opened {
                Ok((bootstrap, exchange)) => {
                    &&& url_host(pair.prefill_server@) == Some(bootstrap.bootstrap_host@)
                    &&& bootstrap.bootstrap_port == pair.bootstrap_port
                    &&& bootstrap.bootstrap_room == wrap(old(self)@.room_id + pair.prefill_rank)
                    &&& bootstrap.decode_rank == pair.decode_rank
                    &&& exchange.prefill_authority@ == authority_text(
                        url_authority(pair.prefill_server@),
                    )
                    &&& exchange.decode_authority@ == authority_text(
                        url_authority(pair.decode_server@),
                    )
                    &&& exchange.prefill_slot == pair.prefill_server_guard
                    &&& exchange.decode_slot == pair.decode_server_guard
                    &&& exchange.phase == Phase::Dispatching
                    &&& final(self)@ == (ContextView {
                        room_id: wrap(old(self)@.room_id + old(self)@.prefill_dp_size),
                        ..old(self)@
                    })
                },
                Err(failure) => {
                    &&& failure == Failure::NoHost
                    &&& url_host(pair.prefill_server@) is None
                    &&& final(self)@ == old(self)@.released(pair.prefill_server_guard).released(
                        pair.decode_server_guard,
                    )
                },
            },
    {
        let host = host_of(pair.prefill_server.as_str());
        let prefill_authority = authority_or_empty(authority_of(pair.prefill_server.as_str()));
        let decode_authority = authority_or_empty(authority_of(pair.decode_server.as_str()));
        self.open_exchange_with(pair, host, prefill_authority, decode_authority)
    }

    /// Takes note of `event` for `exchange` and says what to do next. The
    /// two handles are given back when the exchange closes, and not before:
    /// while the decode response streams, both still count.
    pub fn on_event(&mut self, exchange: &mut Exchange, event: Event) -> (action: Action)
        requires
            old(self).wf(),
        ensures
            final(self).wf(),
            (final(exchange).phase, action) == step(old(exchange).phase, event),
            final(exchange).prefill_authority == old(exchange).prefill_authority,
            final(exchange).decode_authority == old(exchange).decode_authority,
            final(exchange).prefill_slot == old(exchange).prefill_slot,
            final(exchange).decode_slot == old(exchange).decode_slot,
            final(self)@ == if old(exchange).phase != Phase::Closed && final(exchange).phase
                == Phase::Closed {
                both_released(old(self)@, *old(exchange))
            } else {
                old(self)@
            },
    {
        let (next, action) = match exchange.phase {
            Phase::Dispatching => match event {
                Event::Heads { prefill_status } => if is_success(prefill_status) {
                    (Phase::Streaming, Action::Forward)
                } else {
                    (Phase::Closed, Action::Fail(Failure::PrefillRejected(prefill_status)))
                },
                Event::Failed => (Phase::Closed, Action::Fail(Failure::Transport)),
                Event::StreamEnded => (Phase::Closed, Action::Close),
            },
            Phase::Streaming => match event {
                Event::Heads { .. } => (Phase::Streaming, Action::Ignore),
                Event::Failed => (Phase::Closed, Action::Fail(Failure::Transport)),
                Event::StreamEnded => (Phase::Closed, Action::Close),
            },
            Phase::Closed => (Phase::Closed, Action::Ignore),
        };
        let closing = match exchange.phase {
            Phase::Closed => false,
            _ => match next {
                Phase::Closed => true,
                _ => false,
            },
        };
        if closing {
            self.release(exchange.prefill_slot);
            self.release(exchange.decode_slot);
        }
        exchange.phase = next;
        action
    }
}

/// The decimal digit `d` as a character.
pub open spec fn digit_char(d: nat) -> char
    recommends
        d < 10,
{
    if d == 0 {
        '0'
    } else if d == 1 {
        '1'
    } else if d == 2 {
        '2'
    } else if d == 3 {
        '3'
    } else if d == 4 {
        '4'
    } else if d == 5 {
        '5'
    } else if d == 6 {
        '6'
    } else if d == 7 {
        '7'
    } else if d == 8 {
        '8'
    } else {
        '9'
    }
}

/// `n` written in decimal, without leading zeros.
pub open spec fn decimal_text(n: nat) -> Seq<char>
    decreases n,
{
    if n < 10 {
        seq![digit_char(n)]
    } else {
        decimal_text(n / 10).push(digit_char(n % 10))
    }
}

/// One decimal digit as text.
fn digit_str(d: u16) -> (text: &'static str)
    requires
        d < 10,
    ensures
        text@ == seq![digit_char(d as nat)],
{
    proof {
        reveal_strlit("0");
        reveal_strlit("1");
        reveal_strlit("2");
        reveal_strlit("3");
        reveal_strlit("4");
        reveal_strlit("5");
        reveal_strlit("6");
        reveal_strlit("7");
        reveal_strlit("8");
        reveal_strlit("9");
    }
    let text = if d == 0 {
        "0"
    } else if d == 1 {
        "1"
    } else if d == 2 {
        "2"
    } else if d == 3 {
        "3"
    } else if d == 4 {
        "4"
    } else if d == 5 {
        "5"
    } else if d == 6 {
        "6"
    } else if d == 7 {
        "7"
    } else if d == 8 {
        "8"
    } else {
        "9"
    };
    assert(text@ =~= seq![digit_char(d as nat)]);
    text
}

/// `n` written in decimal.
pub fn decimal(n: u16) -> (text: String)
    ensures
        text@ == decimal_text(n as nat),
    decreases n,
{
    if n < 10 {
        String::from_str(digit_str(n))
    } else {
        let mut text = decimal(n / 10);
        text.append(digit_str(n % 10));
        assert(text@ =~= decimal_text(n as nat));
        text
    }
}

/// What a failure is called in the answer to the client.
pub open spec fn failure_text(failure: Failure) -> Seq<char> {
    match failure {
        Failure::NoHost => "prefill server host is empty"@,
        Failure::PrefillRejected(status) => "prefill server answered with status "@ + decimal_text(
            status as nat,
        ),
        Failure::Transport => "upstream request failed"@,
    }
}

/// What a failed selection is called in the answer to the client.
pub open spec fn select_error_text(error: SelectError) -> Seq<char> {
    match error {
        SelectError::Prompt(reason) => reason@,
        SelectError::Tokenize(reason) => "failed to encode tokens: "@ + reason@,
        SelectError::NoPrefillAvailable => "no prefill server available"@,
        SelectError::NoDecodeAvailable => "failed to find node"@,
    }
}

/// The body of an answer that reports a failure on `path`.
pub open spec fn error_body_text(path: Seq<char>, details: Seq<char>) -> Seq<char> {
    "("@ + path + ") Error: "@ + details
}

/// What a failure is called in the answer to the client.
pub fn failure_message(failure: Failure) -> (text: String)
    ensures
        text@ == failure_text(failure),
{
    match failure {
        Failure::NoHost => String::from_str("prefill server host is empty"),
        Failure::PrefillRejected(status) => {
            let mut text = String::from_str("prefill server answered with status ");
            let digits = decimal(status);
            text.append(digits.as_str());
            text
        },
        Failure::Transport => String::from_str("upstream request failed"),
    }
}

/// What a failed selection is called in the answer to the client.
pub fn select_error_message(error: &SelectError) -> (text: String)
    ensures
        text@ == select_error_text(*error),
{
    match error {
        SelectError::Prompt(reason) => reason.clone(),
        SelectError::Tokenize(reason) => {
            let mut text = String::from_str("failed to encode tokens: ");
            text.append(reason.as_str());
            text
        },
        SelectError::NoPrefillAvailable => String::from_str("no prefill server available"),
        SelectError::NoDecodeAvailable => String::from_str("failed to find node"),
    }
}

/// The body of an answer that reports a failure on `path`: the path in
/// round brackets, then `Error:` and the details.
pub fn error_body(path: &str, details: &str) -> (body: String)
    ensures
        body@ == error_body_text(path@, details@),
{
    let mut body = String::from_str("(");
    body.append(path);
    body.append(") Error: ");
    body.append(details);
    body
}

} // verus!
