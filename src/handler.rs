//! What one client connection does, as a state machine: the caller performs
//! each action (connect, write, read, log) and hands back what happened.
use vstd::prelude::*;
use crate::bytes::count;
use crate::log::{lossy_text, text_of, HttpLog};
use crate::request::{
    connect_label, connect_label_of, connect_word, lemma_forward_request_lines,
    lemma_request_line_lacks, lemma_resolve_lacks, first_line, first_line_of, forward_label, forward_label_of,
    forward_request, forward_request_of, is_connect, is_connect_method, line_method, line_target,
    normalize, normalize_newlines, parse_request_line, request_line_of, resolve, resolve_target,
    tunnel_label, tunnel_label_of, ParsedTarget,
};

verus! {

/// `HTTP/1.1 200 Connection Established\r\n\r\n`
pub open spec fn tunnel_ack() -> Seq<u8> {
    seq![
        72u8, 84, 84, 80, 47, 49, 46, 49, 32, 50, 48, 48, 32, 67, 111, 110, 110, 101, 99, 116, 105,
        111, 110, 32, 69, 115, 116, 97, 98, 108, 105, 115, 104, 101, 100, 13, 10, 13, 10,
    ]
}

/// `[Tunnel established]`
pub open spec fn tunnel_note() -> Seq<u8> {
    seq![91u8, 84, 117, 110, 110, 101, 108, 32, 101, 115, 116, 97, 98, 108, 105, 115, 104, 101, 100, 93]
}

impl View for HttpLog {
    type V = (Seq<char>, Seq<char>, Seq<char>);

    open spec fn view(&self) -> (Seq<char>, Seq<char>, Seq<char>) {
        (self.url@, self.request@, self.response@)
    }
}

/// The record logged for a label, a request and a response, each as bytes;
/// request and response have their line endings normalized.
pub open spec fn record_of(label: Seq<u8>, request: Seq<u8>, response: Seq<u8>) -> (
    Seq<char>,
    Seq<char>,
    Seq<char>,
) {
    (lossy_text(label), lossy_text(normalize(request)), lossy_text(normalize(response)))
}

/// Builds the record for a label, a request and a response given as bytes.
pub fn make_record(label: &[u8], request: &[u8], response: &[u8]) -> (r: HttpLog)
    ensures
        r@ == record_of(label@, request@, response@),
{
    let req = normalize_newlines(request);
    let resp = normalize_newlines(response);
    HttpLog {
        url: text_of(label),
        request: text_of(req.as_slice()),
        response: text_of(resp.as_slice()),
    }
}

/// Where a connection stands.
pub enum Phase {
    /// Nothing read from the client yet.
    AwaitingFrame,
    /// A `CONNECT` was read; waiting for the upstream connection.
    TunnelConnecting { address: Vec<u8>, line: Vec<u8> },
    /// A plain request was read; waiting for the upstream connection.
    ForwardConnecting { method: Vec<u8>, target: ParsedTarget, request: Vec<u8> },
    /// The request went upstream; waiting for the whole response.
    AwaitingResponse { method: Vec<u8>, target: ParsedTarget, request: Vec<u8> },
    /// Relaying bytes both ways.
    Tunneling { address: Vec<u8> },
    /// Nothing more to do.
    Finished,
}

pub ghost enum PhaseModel {
    AwaitingFrame,
    TunnelConnecting { address: Seq<u8>, line: Seq<u8> },
    ForwardConnecting { method: Seq<u8>, target: (Seq<u8>, u16, Seq<u8>), request: Seq<u8> },
    AwaitingResponse { method: Seq<u8>, target: (Seq<u8>, u16, Seq<u8>), request: Seq<u8> },
    Tunneling { address: Seq<u8> },
    Finished,
}

impl View for Phase {
    type V = PhaseModel;

    open spec fn view(&self) -> PhaseModel {
        match self {
            Phase::AwaitingFrame => PhaseModel::AwaitingFrame,
            Phase::TunnelConnecting { address, line } => PhaseModel::TunnelConnecting {
                address: address@,
                line: line@,
            },
            Phase::ForwardConnecting { method, target, request } => PhaseModel::ForwardConnecting {
                method: method@,
                target: target@,
                request: request@,
            },
            Phase::AwaitingResponse { method, target, request } => PhaseModel::AwaitingResponse {
                method: method@,
                target: target@,
                request: request@,
            },
            Phase::Tunneling { address } => PhaseModel::Tunneling { address: address@ },
            Phase::Finished => PhaseModel::Finished,
        }
    }
}

/// What happened since the last action.
pub enum Event {
    /// The first read from the client; empty when it read nothing or failed.
    Received(Vec<u8>),
    /// The upstream connection was opened.
    Connected,
    /// The upstream connection could not be opened.
    ConnectFailed,
    /// The whole upstream response, read to its end.
    Response(Vec<u8>),
    /// A chunk read from the client in a tunnel; empty at its end.
    FromClient(Vec<u8>),
    /// A chunk read from the upstream in a tunnel; empty at its end.
    FromUpstream(Vec<u8>),
    /// A read or a write failed.
    Failed,
}

pub ghost enum EventModel {
    Received(Seq<u8>),
    Connected,
    ConnectFailed,
    Response(Seq<u8>),
    FromClient(Seq<u8>),
    FromUpstream(Seq<u8>),
    Failed,
}

impl View for Event {
    type V = EventModel;

    open spec fn view(&self) -> EventModel {
        match self {
            Event::Received(b) => EventModel::Received(b@),
            Event::Connected => EventModel::Connected,
            Event::ConnectFailed => EventModel::ConnectFailed,
            Event::Response(b) => EventModel::Response(b@),
            Event::FromClient(b) => EventModel::FromClient(b@),
            Event::FromUpstream(b) => EventModel::FromUpstream(b@),
            Event::Failed => EventModel::Failed,
        }
    }
}

/// What the caller is to do next.
pub enum Action {
    /// Close the client connection, and the upstream one if open.
    Close,
    /// Open a connection to `address`, a `host:port` taken verbatim.
    ConnectAddress { address: Vec<u8> },
    /// Open a connection to `host` at `port`.
    ConnectHost { host: Vec<u8>, port: u16 },
    /// Write `reply` to the client, log `record`, then relay both ways.
    Establish { reply: Vec<u8>, record: HttpLog },
    /// Write `request` upstream, then read the response to its end.
    SendRequest { request: Vec<u8> },
    /// Log `record`, write `response` to the client, then close.
    Deliver { response: Vec<u8>, record: HttpLog },
    /// Write `data` upstream and log `record`.
    ToUpstream { data: Vec<u8>, record: HttpLog },
    /// Write `data` to the client and log `record`.
    ToClient { data: Vec<u8>, record: HttpLog },
}

pub ghost enum ActionModel {
    Close,
    ConnectAddress { address: Seq<u8> },
    ConnectHost { host: Seq<u8>, port: u16 },
    Establish { reply: Seq<u8>, record: (Seq<char>, Seq<char>, Seq<char>) },
    SendRequest { request: Seq<u8> },
    Deliver { response: Seq<u8>, record: (Seq<char>, Seq<char>, Seq<char>) },
    ToUpstream { data: Seq<u8>, record: (Seq<char>, Seq<char>, Seq<char>) },
    ToClient { data: Seq<u8>, record: (Seq<char>, Seq<char>, Seq<char>) },
}

impl View for Action {
    type V = ActionModel;

    open spec fn view(&self) -> ActionModel {
        match self {
            Action::Close => ActionModel::Close,
            Action::ConnectAddress { address } => ActionModel::ConnectAddress { address: address@ },
            Action::ConnectHost { host, port } => ActionModel::ConnectHost { host: host@, port: *port },
            Action::Establish { reply, record } => ActionModel::Establish {
                reply: reply@,
                record: record@,
            },
            Action::SendRequest { request } => ActionModel::SendRequest { request: request@ },
            Action::Deliver { response, record } => ActionModel::Deliver {
                response: response@,
                record: record@,
            },
            Action::ToUpstream { data, record } => ActionModel::ToUpstream {
                data: data@,
                record: record@,
            },
            Action::ToClient { data, record } => ActionModel::ToClient {
                data: data@,
                record: record@,
            },
        }
    }
}

/// What a connection does with its first frame: nothing on an empty one; a
/// tunnel for `CONNECT`; else the reconstructed request to the resolved target.
pub open spec fn on_frame(frame: Seq<u8>) -> (PhaseModel, ActionModel) {
    if frame.len() == 0 {
        (PhaseModel::Finished, ActionModel::Close)
    } else {
        let rl = request_line_of(frame);
        let m = line_method(rl);
        let t = line_target(rl);
        if is_connect_method(m) {
            (
                PhaseModel::TunnelConnecting { address: t, line: first_line(frame) },
                ActionModel::ConnectAddress { address: t },
            )
        } else {
            let r = resolve(frame, t);
            (
                PhaseModel::ForwardConnecting {
                    method: m,
                    target: r,
                    request: forward_request_of(m, r.2, r.0),
                },
                ActionModel::ConnectHost { host: r.0, port: r.1 },
            )
        }
    }
}

/// The next phase and action of a connection, from its phase and an event.
/// An event that does not fit the phase ends the connection with nothing logged.
pub open spec fn next_of(p: PhaseModel, e: EventModel) -> (PhaseModel, ActionModel) {
    match (p, e) {
        (PhaseModel::AwaitingFrame, EventModel::Received(frame)) => on_frame(frame),
        (PhaseModel::TunnelConnecting { address, line }, EventModel::Connected) => (
            PhaseModel::Tunneling { address },
            ActionModel::Establish {
                reply: tunnel_ack(),
                record: record_of(connect_label_of(address), line, tunnel_note()),
            },
        ),
        (PhaseModel::ForwardConnecting { method, target, request }, EventModel::Connected) => (
            PhaseModel::AwaitingResponse { method, target, request },
            ActionModel::SendRequest { request },
        ),
        (PhaseModel::AwaitingResponse { method, target, request }, EventModel::Response(resp)) => (
            PhaseModel::Finished,
            ActionModel::Deliver {
                response: resp,
                record: record_of(forward_label_of(method, target.2, target.0), request, resp),
            },
        ),
        (PhaseModel::Tunneling { address }, EventModel::FromClient(d)) => if d.len() == 0 {
            (PhaseModel::Finished, ActionModel::Close)
        } else {
            (
                PhaseModel::Tunneling { address },
                ActionModel::ToUpstream {
                    data: d,
                    record: record_of(tunnel_label_of(address), d, Seq::empty()),
                },
            )
        },
        (PhaseModel::Tunneling { address }, EventModel::FromUpstream(d)) => if d.len() == 0 {
            (PhaseModel::Finished, ActionModel::Close)
        } else {
            (
                PhaseModel::Tunneling { address },
                ActionModel::ToClient {
                    data: d,
                    record: record_of(tunnel_label_of(address), Seq::empty(), d),
                },
            )
        },
        _ => (PhaseModel::Finished, ActionModel::Close),
    }
}

/// One client connection.
pub struct Connection {
    phase: Phase,
}

impl Connection {
    /// The phase the connection is in.
    pub closed spec fn state(&self) -> PhaseModel {
        self.phase@
    }

    /// A freshly accepted connection.
    pub fn new() -> (r: Connection)
        ensures
            r.state() == PhaseModel::AwaitingFrame,
    {
        Connection { phase: Phase::AwaitingFrame }
    }

    /// Whether nothing more is to be done.
    pub fn is_finished(&self) -> (r: bool)
        ensures
            r == (self.state() == PhaseModel::Finished),
    {
        match self.phase {
            Phase::Finished => true,
            _ => false,
        }
    }

    /// Takes in an event and says what to do next.
    pub fn step(&mut self, ev: Event) -> (a: Action)
        ensures
            (final(self).state(), a@) == next_of(old(self).state(), ev@),
    {
        let mut phase = Phase::Finished;
        core::mem::swap(&mut self.phase, &mut phase);
        let (next, action) = match (phase, ev) {
            (Phase::AwaitingFrame, Event::Received(frame)) => start(frame.as_slice()),
            (Phase::TunnelConnecting { address, line }, Event::Connected) => {
                let label = connect_label(address.as_slice());
                let note: Vec<u8> = vec![
                    91u8, 84, 117, 110, 110, 101, 108, 32, 101, 115, 116, 97, 98, 108, 105, 115,
                    104, 101, 100, 93,
                ];
                assert(note@ =~= tunnel_note());
                let record = make_record(label.as_slice(), line.as_slice(), note.as_slice());
                let reply: Vec<u8> = vec![
                    72u8, 84, 84, 80, 47, 49, 46, 49, 32, 50, 48, 48, 32, 67, 111, 110, 110, 101,
                    99, 116, 105, 111, 110, 32, 69, 115, 116, 97, 98, 108, 105, 115, 104, 101, 100,
                    13, 10, 13, 10,
                ];
                assert(reply@ =~= tunnel_ack());
                (Phase::Tunneling { address }, Action::Establish { reply, record })
            },
            (Phase::ForwardConnecting { method, target, request }, Event::Connected) => {
                let out = request.clone();
                (Phase::AwaitingResponse { method, target, request }, Action::SendRequest { request: out })
            },
            (Phase::AwaitingResponse { method, target, request }, Event::Response(resp)) => {
                let label = forward_label(method.as_slice(), target.path.as_slice(), target.host.as_slice());
                let record = make_record(label.as_slice(), request.as_slice(), resp.as_slice());
                (Phase::Finished, Action::Deliver { response: resp, record })
            },
            (Phase::Tunneling { address }, Event::FromClient(d)) => {
                if d.len() == 0 {
                    (Phase::Finished, Action::Close)
                } else {
                    let label = tunnel_label(address.as_slice());
                    let none: Vec<u8> = Vec::new();
                    let record = make_record(label.as_slice(), d.as_slice(), none.as_slice());
                    (Phase::Tunneling { address }, Action::ToUpstream { data: d, record })
                }
            },
            (Phase::Tunneling { address }, Event::FromUpstream(d)) => {
                if d.len() == 0 {
                    (Phase::Finished, Action::Close)
                } else {
                    let label = tunnel_label(address.as_slice());
                    let none: Vec<u8> = Vec::new();
                    let record = make_record(label.as_slice(), none.as_slice(), d.as_slice());
                    (Phase::Tunneling { address }, Action::ToClient { data: d, record })
                }
            },
            _ => (Phase::Finished, Action::Close),
        };
        self.phase = next;
        action
    }
}

/// The phase and action that a first frame leads to.
pub fn start(frame: &[u8]) -> (r: (Phase, Action))
    ensures
        (r.0@, r.1@) == on_frame(frame@),
{
    if frame.len() == 0 {
        return (Phase::Finished, Action::Close);
    }
    let rl = parse_request_line(frame);
    let method = rl.method();
    let target = rl.target();
    if is_connect(method.as_slice()) {
        let line = first_line_of(frame);
        let address = target.clone();
        (Phase::TunnelConnecting { address: target, line }, Action::ConnectAddress { address })
    } else {
        let t = resolve_target(frame, target.as_slice());
        let request = forward_request(method.as_slice(), t.path.as_slice(), t.host.as_slice());
        let host = t.host.clone();
        let port = t.port;
        (Phase::ForwardConnecting { method, target: t, request }, Action::ConnectHost { host, port })
    }
}

/// Whatever headers a plain request carried, the request sent upstream in its
/// place has exactly four line feeds (its request line, one `Host` header, one
/// `Connection: close` header, the blank line) and ends in `\r\n\r\n`.
pub proof fn lemma_forward_request_shape(frame: Seq<u8>)
    requires
        frame.len() > 0,
        !is_connect_method(line_method(request_line_of(frame))),
    ensures
        on_frame(frame).0 matches PhaseModel::ForwardConnecting { request, .. } && count(request, 10)
            == 4 && request.len() >= 4 && request.subrange(request.len() - 4, request.len() as int)
            == seq![13u8, 10, 13, 10],
{
    let rl = request_line_of(frame);
    let t = line_target(rl);
    lemma_request_line_lacks(frame);
    lemma_resolve_lacks(frame, t);
    let r = resolve(frame, t);
    lemma_forward_request_lines(line_method(rl), r.2, r.0);
}

/// A `CONNECT` asks to connect to its target verbatim; once connected, the
/// client is sent exactly `HTTP/1.1 200 Connection Established\r\n\r\n` and a
/// record labelled `CONNECT <target>` is logged.
pub proof fn lemma_tunnel_established(frame: Seq<u8>)
    requires
        frame.len() > 0,
        is_connect_method(line_method(request_line_of(frame))),
    ensures
        ({
            let t = line_target(request_line_of(frame));
            &&& on_frame(frame).1 == ActionModel::ConnectAddress { address: t }
            &&& next_of(on_frame(frame).0, EventModel::Connected) == (
                PhaseModel::Tunneling { address: t },
                ActionModel::Establish {
                    reply: tunnel_ack(),
                    record: record_of(connect_label_of(t), first_line(frame), tunnel_note()),
                },
            )
            &&& connect_label_of(t) == connect_word() + seq![32u8] + t
        }),
{
}

/// A `CONNECT` whose upstream refuses the connection ends it: nothing is
/// logged and nothing is sent to the client.
pub proof fn lemma_tunnel_refused(frame: Seq<u8>)
    requires
        frame.len() > 0,
        is_connect_method(line_method(request_line_of(frame))),
    ensures
        next_of(on_frame(frame).0, EventModel::ConnectFailed) == (PhaseModel::Finished, ActionModel::Close),
{
}

} // verus!
