use belch_proxy::handler::{make_record, Action, Connection, Event};

const ACK: &[u8] = b"HTTP/1.1 200 Connection Established\r\n\r\n";

#[test]
fn empty_frame_is_abandoned() {
    let mut c = Connection::new();
    assert!(matches!(c.step(Event::Received(Vec::new())), Action::Close));
    assert!(c.is_finished());
}

#[test]
fn connect_success_acknowledges_and_logs() {
    let mut c = Connection::new();
    match c.step(Event::Received(b"CONNECT example.com:443 HTTP/1.1\r\nHost: example.com:443\r\n\r\n".to_vec())) {
        Action::ConnectAddress { address } => assert_eq!(address, b"example.com:443".to_vec()),
        _ => panic!("expected a connect to the tunnel target"),
    }
    match c.step(Event::Connected) {
        Action::Establish { reply, record } => {
            assert_eq!(reply, ACK.to_vec());
            assert!(record.url.contains("CONNECT example.com:443"));
            assert_eq!(record.request, "CONNECT example.com:443 HTTP/1.1");
            assert_eq!(record.response, "[Tunnel established]");
        },
        _ => panic!("expected the tunnel to be established"),
    }
    assert!(!c.is_finished());
}

#[test]
fn connect_refused_logs_nothing() {
    let mut c = Connection::new();
    let a = c.step(Event::Received(b"connect 127.0.0.1:1 HTTP/1.1\r\n\r\n".to_vec()));
    assert!(matches!(a, Action::ConnectAddress { .. }));
    assert!(matches!(c.step(Event::ConnectFailed), Action::Close));
    assert!(c.is_finished());
}

#[test]
fn tunnel_relays_chunks_until_closed() {
    let mut c = Connection::new();
    c.step(Event::Received(b"CONNECT example.com:443 HTTP/1.1\r\n\r\n".to_vec()));
    c.step(Event::Connected);
    match c.step(Event::FromClient(b"hello\r\n".to_vec())) {
        Action::ToUpstream { data, record } => {
            assert_eq!(data, b"hello\r\n".to_vec());
            assert_eq!(record.url, "Tunnel example.com:443");
            assert_eq!(record.request, "hello\n");
            assert_eq!(record.response, "");
        },
        _ => panic!("expected a relay to the upstream"),
    }
    match c.step(Event::FromUpstream(b"world".to_vec())) {
        Action::ToClient { data, record } => {
            assert_eq!(data, b"world".to_vec());
            assert_eq!(record.request, "");
            assert_eq!(record.response, "world");
        },
        _ => panic!("expected a relay to the client"),
    }
    assert!(matches!(c.step(Event::FromUpstream(Vec::new())), Action::Close));
    assert!(c.is_finished());
}

#[test]
fn forward_round_trip() {
    let mut c = Connection::new();
    let frame = b"GET http://example.com/page HTTP/1.1\r\nUser-Agent: t\r\nAccept: */*\r\n\r\n".to_vec();
    match c.step(Event::Received(frame)) {
        Action::ConnectHost { host, port } => {
            assert_eq!(host, b"example.com".to_vec());
            assert_eq!(port, 80);
        },
        _ => panic!("expected a connect to the resolved host"),
    }
    let sent = match c.step(Event::Connected) {
        Action::SendRequest { request } => request,
        _ => panic!("expected the request to be sent"),
    };
    assert_eq!(sent, b"GET /page HTTP/1.1\r\nHost: example.com\r\nConnection: close\r\n\r\n".to_vec());
    let resp = b"HTTP/1.0 200 OK\r\nContent-Length: 2\r\n\r\nhi".to_vec();
    match c.step(Event::Response(resp.clone())) {
        Action::Deliver { response, record } => {
            assert_eq!(response, resp);
            assert_eq!(record.url, "GET /page [Host: example.com]");
            assert_eq!(record.request, "GET /page HTTP/1.1\nHost: example.com\nConnection: close\n\n");
            assert_eq!(record.response, "HTTP/1.0 200 OK\nContent-Length: 2\n\nhi");
        },
        _ => panic!("expected the response to be delivered"),
    }
    assert!(c.is_finished());
}

#[test]
fn forward_connect_failure_logs_nothing() {
    let mut c = Connection::new();
    c.step(Event::Received(b"GET / HTTP/1.1\r\nHost: 127.0.0.1:1\r\n\r\n".to_vec()));
    assert!(matches!(c.step(Event::ConnectFailed), Action::Close));
    assert!(c.is_finished());
}

#[test]
fn malformed_request_is_forwarded_as_get_root() {
    let mut c = Connection::new();
    match c.step(Event::Received(b"???\r\n\r\n".to_vec())) {
        Action::ConnectHost { host, port } => {
            assert_eq!(host, b"127.0.0.1".to_vec());
            assert_eq!(port, 80);
        },
        _ => panic!("expected a connect"),
    }
    match c.step(Event::Connected) {
        Action::SendRequest { request } => assert_eq!(
            request,
            b"GET / HTTP/1.1\r\nHost: 127.0.0.1\r\nConnection: close\r\n\r\n".to_vec()
        ),
        _ => panic!("expected the request to be sent"),
    }
}

#[test]
fn unexpected_event_ends_connection() {
    let mut c = Connection::new();
    assert!(matches!(c.step(Event::Connected), Action::Close));
    assert!(c.is_finished());
    assert!(matches!(c.step(Event::Received(b"GET / HTTP/1.1\r\n\r\n".to_vec())), Action::Close));
}

#[test]
fn failure_mid_tunnel_ends_connection() {
    let mut c = Connection::new();
    c.step(Event::Received(b"CONNECT a:1 HTTP/1.1\r\n\r\n".to_vec()));
    c.step(Event::Connected);
    assert!(matches!(c.step(Event::Failed), Action::Close));
    assert!(c.is_finished());
}

#[test]
fn record_text_replaces_invalid_utf8() {
    let r = make_record(b"a\xffb", b"x\r\ny", b"\xc3\xa9\r\n");
    assert_eq!(r.url, "a\u{FFFD}b");
    assert_eq!(r.request, "x\ny");
    assert_eq!(r.response, "\u{e9}\n");
}
