use belch_proxy::request::{
    connect_label, forward_label, forward_request, is_connect, normalize_newlines,
    parse_port, parse_request_line, resolve_target, tunnel_label, RequestLine,
};

fn line_of(frame: &[u8]) -> (Vec<u8>, Vec<u8>) {
    let rl = parse_request_line(frame);
    (rl.method(), rl.target())
}

#[test]
fn request_line_is_split_into_method_and_target() {
    let (m, t) = line_of(b"GET http://example.com/a HTTP/1.1\r\nHost: x\r\n\r\n");
    assert_eq!(m, b"GET".to_vec());
    assert_eq!(t, b"http://example.com/a".to_vec());
}

#[test]
fn request_line_tolerates_extra_whitespace() {
    let (m, t) = line_of(b"  POST \t /submit   HTTP/1.0\n");
    assert_eq!(m, b"POST".to_vec());
    assert_eq!(t, b"/submit".to_vec());
}

#[test]
fn malformed_request_line_defaults_to_get_root() {
    for frame in [&b"GARBAGE\r\n\r\n"[..], &b"\r\nHost: a\r\n"[..], &b"   "[..]] {
        let rl = parse_request_line(frame);
        assert!(matches!(rl, RequestLine::Defaulted));
        assert_eq!(rl.method(), b"GET".to_vec());
        assert_eq!(rl.target(), b"/".to_vec());
    }
}

#[test]
fn connect_is_recognised_in_any_case() {
    assert!(is_connect(b"CONNECT"));
    assert!(is_connect(b"connect"));
    assert!(is_connect(b"CoNnEcT"));
    assert!(!is_connect(b"CONNECTX"));
    assert!(!is_connect(b"GET"));
    assert!(!is_connect(b""));
}

#[test]
fn port_numbers() {
    assert_eq!(parse_port(b"80"), Some(80));
    assert_eq!(parse_port(b"8080"), Some(8080));
    assert_eq!(parse_port(b"0"), Some(0));
    assert_eq!(parse_port(b"65535"), Some(65535));
    assert_eq!(parse_port(b"65536"), None);
    assert_eq!(parse_port(b"999999999999"), None);
    assert_eq!(parse_port(b""), None);
    assert_eq!(parse_port(b"8a"), None);
    assert_eq!(parse_port(b"-1"), None);
}

#[test]
fn absolute_target_with_port() {
    let frame = b"GET http://example.com:8080/index.html HTTP/1.1\r\nHost: other:9\r\n\r\n";
    let t = resolve_target(frame, b"http://example.com:8080/index.html");
    assert_eq!(t.host, b"example.com".to_vec());
    assert_eq!(t.port, 8080);
    assert_eq!(t.path, b"/index.html".to_vec());
}

#[test]
fn absolute_target_without_port_uses_80() {
    let t = resolve_target(b"GET http://h/x/y HTTP/1.1\r\n\r\n", b"http://h/x/y");
    assert_eq!(t.host, b"h".to_vec());
    assert_eq!(t.port, 80);
    assert_eq!(t.path, b"/x/y".to_vec());
}

#[test]
fn absolute_target_with_bad_port_uses_80() {
    let t = resolve_target(b"", b"http://h:http/p");
    assert_eq!(t.host, b"h".to_vec());
    assert_eq!(t.port, 80);
    assert_eq!(t.path, b"/p".to_vec());
}

#[test]
fn absolute_target_without_path_uses_root() {
    let t = resolve_target(b"", b"http://h:81");
    assert_eq!(t.host, b"h".to_vec());
    assert_eq!(t.port, 81);
    assert_eq!(t.path, b"/".to_vec());
}

#[test]
fn host_header_with_port() {
    let frame = b"GET /a?b=c HTTP/1.1\r\nAccept: */*\r\nHost: example.org:8000\r\n\r\n";
    let t = resolve_target(frame, b"/a?b=c");
    assert_eq!(t.host, b"example.org".to_vec());
    assert_eq!(t.port, 8000);
    assert_eq!(t.path, b"/a?b=c".to_vec());
}

#[test]
fn host_header_without_port_uses_80() {
    let frame = b"GET / HTTP/1.1\r\nhOsT:   example.org  \r\n\r\n";
    let t = resolve_target(frame, b"/");
    assert_eq!(t.host, b"example.org".to_vec());
    assert_eq!(t.port, 80);
    assert_eq!(t.path, b"/".to_vec());
}

#[test]
fn first_host_header_wins() {
    let frame = b"GET / HTTP/1.1\nHost: one:1\nHost: two:2\n\n";
    let t = resolve_target(frame, b"/");
    assert_eq!(t.host, b"one".to_vec());
    assert_eq!(t.port, 1);
}

#[test]
fn no_host_defaults_to_loopback() {
    let frame = b"GET /index HTTP/1.1\r\nAccept: */*\r\n\r\nHost: body:9\r\n";
    let t = resolve_target(frame, b"/index");
    assert_eq!(t.host, b"127.0.0.1".to_vec());
    assert_eq!(t.port, 80);
    assert_eq!(t.path, b"/index".to_vec());
}

#[test]
fn forward_request_is_minimal() {
    let r = forward_request(b"GET", b"/a", b"example.com");
    assert_eq!(
        r,
        b"GET /a HTTP/1.1\r\nHost: example.com\r\nConnection: close\r\n\r\n".to_vec()
    );
}

#[test]
fn forward_request_drops_client_headers() {
    let frame: &[u8] =
        b"POST http://h:81/x HTTP/1.1\r\nHost: h\r\nCookie: a\r\nHost: dup\r\nConnection: keep-alive\r\n\r\nbody";
    let (m, t) = line_of(frame);
    let target = resolve_target(frame, &t);
    let r = forward_request(&m, &target.path, &target.host);
    let text = String::from_utf8(r.clone()).unwrap();
    assert!(text.ends_with("\r\n\r\n"));
    assert_eq!(text.matches("Host:").count(), 1);
    assert_eq!(text.matches("Connection: close").count(), 1);
    assert_eq!(r.iter().filter(|b| **b == b'\n').count(), 4);
    assert_eq!(text, "POST /x HTTP/1.1\r\nHost: h\r\nConnection: close\r\n\r\n");
}

#[test]
fn labels() {
    assert_eq!(forward_label(b"GET", b"/a", b"h"), b"GET /a [Host: h]".to_vec());
    assert_eq!(connect_label(b"example.com:443"), b"CONNECT example.com:443".to_vec());
    assert_eq!(tunnel_label(b"example.com:443"), b"Tunnel example.com:443".to_vec());
}

#[test]
fn newlines_are_normalized() {
    assert_eq!(normalize_newlines(b"a\r\nb\r\n"), b"a\nb\n".to_vec());
    assert_eq!(normalize_newlines(b"\r\r\n\n"), b"\r\n\n".to_vec());
    assert_eq!(normalize_newlines(b"no endings\r"), b"no endings\r".to_vec());
    assert_eq!(normalize_newlines(b""), Vec::<u8>::new());
}
