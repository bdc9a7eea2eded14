//! Reading an HTTP request frame: the request line, the target it resolves
//! to, and the minimal request that is sent upstream in its place.
use vstd::prelude::*;
use crate::bytes::{
    back_ws, copy_range, find_byte, find_from, is_ws, lacks, lemma_back_bounds, lemma_find_bounds,
    lemma_find_skip, lemma_skip_ws_skip, lemma_to_ws_skip, count, lemma_count_add, lemma_lacks_count,
    lemma_skip_bounds, lemma_to_ws_bounds, lower, push_all, skip_spaces, skip_ws, starts_with,
    to_ws, token_end, trim, trimmed_end,
};

verus! {

/// Port used when a target names none, or names one that does not parse.
pub const DEFAULT_PORT: u16 = 80;

/// `CONNECT`
pub open spec fn connect_word() -> Seq<u8> {
    seq![67u8, 79, 78, 78, 69, 67, 84]
}

/// `GET`
pub open spec fn get_word() -> Seq<u8> {
    seq![71u8, 69, 84]
}

/// `/`
pub open spec fn root_path() -> Seq<u8> {
    seq![47u8]
}

/// `http://`
pub open spec fn http_prefix() -> Seq<u8> {
    seq![104u8, 116, 116, 112, 58, 47, 47]
}

/// `host`
pub open spec fn host_word() -> Seq<u8> {
    seq![104u8, 111, 115, 116]
}

/// `127.0.0.1`
pub open spec fn loopback() -> Seq<u8> {
    seq![49u8, 50, 55, 46, 48, 46, 48, 46, 49]
}

/// Equal up to ASCII case.
pub open spec fn eq_ignore_case(a: Seq<u8>, b: Seq<u8>) -> bool {
    a.len() == b.len() && forall|i: int| 0 <= i < a.len() ==> lower(#[trigger] a[i]) == lower(b[i])
}

/// `l` without one trailing carriage return.
pub open spec fn strip_cr(l: Seq<u8>) -> Seq<u8> {
    if l.len() > 0 && l.last() == 13 {
        l.drop_last()
    } else {
        l
    }
}

/// The first line of a frame, without its line ending.
pub open spec fn first_line(frame: Seq<u8>) -> Seq<u8> {
    strip_cr(frame.subrange(0, find_from(frame, 10, 0)))
}

/// Method and target: the first two whitespace-separated tokens of the first
/// line, or `None` when it has fewer than two.
pub open spec fn request_line_of(frame: Seq<u8>) -> Option<(Seq<u8>, Seq<u8>)> {
    let l = first_line(frame);
    let m0 = skip_ws(l, 0);
    let m1 = to_ws(l, m0);
    let t0 = skip_ws(l, m1);
    let t1 = to_ws(l, t0);
    if m0 < l.len() && t0 < l.len() {
        Some((l.subrange(m0, m1), l.subrange(t0, t1)))
    } else {
        None
    }
}

/// The method a request line stands for; `GET` where it was malformed.
pub open spec fn line_method(r: Option<(Seq<u8>, Seq<u8>)>) -> Seq<u8> {
    match r {
        Some(p) => p.0,
        None => get_word(),
    }
}

/// The target a request line stands for; `/` where it was malformed.
pub open spec fn line_target(r: Option<(Seq<u8>, Seq<u8>)>) -> Seq<u8> {
    match r {
        Some(p) => p.1,
        None => root_path(),
    }
}

/// Whether a method asks for a tunnel.
pub open spec fn is_connect_method(m: Seq<u8>) -> bool {
    eq_ignore_case(m, connect_word())
}

/// Value of a sequence of decimal digits.
pub open spec fn digits_value(s: Seq<u8>) -> nat
    decreases s.len(),
{
    if s.len() == 0 {
        0
    } else {
        digits_value(s.drop_last()) * 10 + (s.last() - 48) as nat
    }
}

pub open spec fn all_digits(s: Seq<u8>) -> bool {
    forall|i: int| 0 <= i < s.len() ==> 48 <= #[trigger] s[i] <= 57
}

/// A port number written in decimal: at least one digit, nothing else, at most 65535.
pub open spec fn port_of(s: Seq<u8>) -> Option<u16> {
    if s.len() > 0 && all_digits(s) && digits_value(s) <= 65535 {
        Some(digits_value(s) as u16)
    } else {
        None
    }
}

/// Host and port of `host[:port]`; the port is 80 when absent or unreadable.
pub open spec fn split_host_port(v: Seq<u8>) -> (Seq<u8>, u16) {
    let c = find_from(v, 58, 0);
    let port = if c < v.len() {
        match port_of(v.subrange(c + 1, v.len() as int)) {
            Some(p) => p,
            None => DEFAULT_PORT,
        }
    } else {
        DEFAULT_PORT
    };
    (v.subrange(0, c), port)
}

/// Whether a header line is named `Host`, in any case.
pub open spec fn is_host_line(l: Seq<u8>) -> bool {
    l.len() >= 5 && eq_ignore_case(l.subrange(0, 4), host_word()) && l[4] == 58
}

/// The value of the first `Host` header among the header lines of `rest`, which
/// end at the first empty line.
pub open spec fn host_in_headers(rest: Seq<u8>) -> Option<Seq<u8>>
    decreases rest.len(),
{
    if rest.len() == 0 {
        None
    } else {
        let e = find_from(rest, 10, 0);
        let l = strip_cr(rest.subrange(0, e));
        if l.len() == 0 {
            None
        } else if is_host_line(l) {
            Some(trim(l.subrange(5, l.len() as int)))
        } else if e >= rest.len() {
            None
        } else {
            proof {
                lemma_find_bounds(rest, 10, 0);
            }
            host_in_headers(rest.subrange(e + 1, rest.len() as int))
        }
    }
}

/// The value of the first `Host` header of a frame, if any.
pub open spec fn host_header(frame: Seq<u8>) -> Option<Seq<u8>> {
    let e = find_from(frame, 10, 0);
    if e < frame.len() {
        host_in_headers(frame.subrange(e + 1, frame.len() as int))
    } else {
        None
    }
}

/// Host, port and path that a plain request goes to.
pub open spec fn resolve(frame: Seq<u8>, target: Seq<u8>) -> (Seq<u8>, u16, Seq<u8>) {
    if target.len() >= 7 && target.subrange(0, 7) == http_prefix() {
        let rest = target.subrange(7, target.len() as int);
        let sl = find_from(rest, 47, 0);
        let hp = split_host_port(rest.subrange(0, sl));
        let path = if sl < rest.len() {
            rest.subrange(sl, rest.len() as int)
        } else {
            root_path()
        };
        (hp.0, hp.1, path)
    } else {
        match host_header(frame) {
            Some(v) => {
                let hp = split_host_port(v);
                (hp.0, hp.1, target)
            },
            None => (loopback(), DEFAULT_PORT, target),
        }
    }
}

/// ` HTTP/1.1\r\nHost: `
pub open spec fn version_and_host() -> Seq<u8> {
    seq![32u8, 72, 84, 84, 80, 47, 49, 46, 49, 13, 10, 72, 111, 115, 116, 58, 32]
}

/// `\r\nConnection: close\r\n\r\n`
pub open spec fn close_tail() -> Seq<u8> {
    seq![
        13u8, 10, 67, 111, 110, 110, 101, 99, 116, 105, 111, 110, 58, 32, 99, 108, 111, 115, 101,
        13, 10, 13, 10,
    ]
}

/// `<method> <path> HTTP/1.1\r\nHost: <host>\r\nConnection: close\r\n\r\n`
pub open spec fn forward_request_of(method: Seq<u8>, path: Seq<u8>, host: Seq<u8>) -> Seq<u8> {
    method + seq![32u8] + path + version_and_host() + host + close_tail()
}

/// ` [Host: `
pub open spec fn host_tag() -> Seq<u8> {
    seq![32u8, 91, 72, 111, 115, 116, 58, 32]
}

/// `<method> <path> [Host: <host>]`
pub open spec fn forward_label_of(method: Seq<u8>, path: Seq<u8>, host: Seq<u8>) -> Seq<u8> {
    method + seq![32u8] + path + host_tag() + host + seq![93u8]
}

/// `CONNECT <target>`
pub open spec fn connect_label_of(target: Seq<u8>) -> Seq<u8> {
    connect_word() + seq![32u8] + target
}

/// `Tunnel <target>`
pub open spec fn tunnel_label_of(target: Seq<u8>) -> Seq<u8> {
    seq![84u8, 117, 110, 110, 101, 108, 32] + target
}

/// `s` with each `\r\n` replaced by `\n`.
pub open spec fn normalize(s: Seq<u8>) -> Seq<u8>
    decreases s.len(),
{
    if s.len() == 0 {
        s
    } else if s.len() >= 2 && s[0] == 13 && s[1] == 10 {
        seq![10u8] + normalize(s.subrange(2, s.len() as int))
    } else {
        seq![s[0]] + normalize(s.subrange(1, s.len() as int))
    }
}

/// The request line of a frame: parsed, or defaulted to `GET /` where the
/// first line holds fewer than two tokens.
pub enum RequestLine {
    Parsed { method: Vec<u8>, target: Vec<u8> },
    Defaulted,
}

impl View for RequestLine {
    type V = Option<(Seq<u8>, Seq<u8>)>;

    open spec fn view(&self) -> Option<(Seq<u8>, Seq<u8>)> {
        match self {
            RequestLine::Parsed { method, target } => Some((method@, target@)),
            RequestLine::Defaulted => None,
        }
    }
}

impl RequestLine {
    /// The method, `GET` where the line was defaulted.
    pub fn method(&self) -> (r: Vec<u8>)
        ensures
            r@ == line_method(self@),
    {
        match self {
            RequestLine::Parsed { method, .. } => method.clone(),
            RequestLine::Defaulted => {
                let r: Vec<u8> = vec![71u8, 69, 84];
                assert(r@ =~= get_word());
                r
            },
        }
    }

    /// The request target, `/` where the line was defaulted.
    pub fn target(&self) -> (r: Vec<u8>)
        ensures
            r@ == line_target(self@),
    {
        match self {
            RequestLine::Parsed { target, .. } => target.clone(),
            RequestLine::Defaulted => {
                let r: Vec<u8> = vec![47u8];
                assert(r@ =~= root_path());
                r
            },
        }
    }
}

/// A copy of the first line of `frame`, without its line ending.
pub fn first_line_of(frame: &[u8]) -> (r: Vec<u8>)
    ensures
        r@ == first_line(frame@),
{
    let e = find_byte(frame, 10, 0);
    proof {
        lemma_find_bounds(frame@, 10, 0);
    }
    if e > 0 && frame[e - 1] == 13 {
        let r = copy_range(frame, 0, e - 1);
        assert(r@ =~= frame@.subrange(0, e as int).drop_last());
        r
    } else {
        copy_range(frame, 0, e)
    }
}

/// Splits the first line of a frame into method and target.
pub fn parse_request_line(frame: &[u8]) -> (r: RequestLine)
    ensures
        r@ == request_line_of(frame@),
{
    let line = first_line_of(frame);
    let l = line.as_slice();
    let m0 = skip_spaces(l, 0);
    proof {
        lemma_skip_bounds(l@, 0);
    }
    let m1 = token_end(l, m0);
    proof {
        lemma_to_ws_bounds(l@, m0 as int);
    }
    let t0 = skip_spaces(l, m1);
    proof {
        lemma_skip_bounds(l@, m1 as int);
    }
    let t1 = token_end(l, t0);
    proof {
        lemma_to_ws_bounds(l@, t0 as int);
    }
    if m0 < l.len() && t0 < l.len() {
        RequestLine::Parsed { method: copy_range(l, m0, m1), target: copy_range(l, t0, t1) }
    } else {
        RequestLine::Defaulted
    }
}

/// Whether `a` and `b` are equal up to ASCII case.
pub fn equal_ignoring_case(a: &[u8], b: &[u8]) -> (r: bool)
    ensures
        r == eq_ignore_case(a@, b@),
{
    if a.len() != b.len() {
        return false;
    }
    let mut k: usize = 0;
    while k < a.len()
        invariant
            a@.len() == b@.len(),
            k <= a@.len(),
            forall|i: int| 0 <= i < k ==> lower(#[trigger] a@[i]) == lower(b@[i]),
        decreases a@.len() - k,
    {
        let x = a[k];
        let y = b[k];
        let lx: u8 = if 65 <= x && x <= 90 { x + 32 } else { x };
        let ly: u8 = if 65 <= y && y <= 90 { y + 32 } else { y };
        if lx != ly {
            return false;
        }
        k = k + 1;
    }
    true
}

/// Whether a method asks for a tunnel: `CONNECT` in any case.
pub fn is_connect(method: &[u8]) -> (r: bool)
    ensures
        r == is_connect_method(method@),
{
    let word: Vec<u8> = vec![67u8, 79, 78, 78, 69, 67, 84];
    assert(word@ =~= connect_word());
    equal_ignoring_case(method, word.as_slice())
}

/// Reads a decimal port number.
pub fn parse_port(s: &[u8]) -> (r: Option<u16>)
    ensures
        r == port_of(s@),
{
    if s.len() == 0 {
        return None;
    }
    let mut acc: u32 = 0;
    let mut k: usize = 0;
    while k < s.len()
        invariant
            k <= s@.len(),
            all_digits(s@.subrange(0, k as int)),
            acc == if digits_value(s@.subrange(0, k as int)) > 65535 {
                65536
            } else {
                digits_value(s@.subrange(0, k as int))
            },
        decreases s@.len() - k,
    {
        let c = s[k];
        if c < 48 || c > 57 {
            assert(!all_digits(s@));
            return None;
        }
        let ghost pre = s@.subrange(0, k as int);
        assert(s@.subrange(0, k as int + 1).drop_last() =~= pre);
        let next: u32 = acc * 10 + (c - 48) as u32;
        acc = if next > 65535 { 65536 } else { next };
        k = k + 1;
        assert(all_digits(s@.subrange(0, k as int)));
    }
    assert(s@.subrange(0, k as int) =~= s@);
    if acc > 65535 {
        None
    } else {
        Some(acc as u16)
    }
}

/// Splits `host[:port]`; the port is 80 when absent or unreadable.
pub fn split_host_and_port(v: &[u8]) -> (r: (Vec<u8>, u16))
    ensures
        (r.0@, r.1) == split_host_port(v@),
{
    let c = find_byte(v, 58, 0);
    proof {
        lemma_find_bounds(v@, 58, 0);
    }
    let host = copy_range(v, 0, c);
    let port = if c < v.len() {
        let digits = copy_range(v, c + 1, v.len());
        match parse_port(digits.as_slice()) {
            Some(p) => p,
            None => DEFAULT_PORT,
        }
    } else {
        DEFAULT_PORT
    };
    (host, port)
}

pub proof fn lemma_find_shift(s: Seq<u8>, b: u8, i: int, k: int)
    requires
        0 <= i <= k <= s.len(),
    ensures
        find_from(s, b, k) == i + find_from(s.subrange(i, s.len() as int), b, k - i),
    decreases s.len() - k,
{
    if k < s.len() && s[k] != b {
        lemma_find_shift(s, b, i, k + 1);
    }
}

/// The value of the first `Host` header of a frame, trimmed, if any.
pub fn find_host_header(frame: &[u8]) -> (r: Option<Vec<u8>>)
    ensures
        match r {
            Some(v) => host_header(frame@) == Some(v@),
            None => host_header(frame@).is_none(),
        },
{
    let first = find_byte(frame, 10, 0);
    proof {
        lemma_find_bounds(frame@, 10, 0);
    }
    if first >= frame.len() {
        return None;
    }
    let mut start: usize = first + 1;
    while start < frame.len()
        invariant
            start <= frame@.len(),
            host_header(frame@) == host_in_headers(frame@.subrange(start as int, frame@.len() as int)),
        decreases frame@.len() - start,
    {
        let ghost rest = frame@.subrange(start as int, frame@.len() as int);
        let e = find_byte(frame, 10, start);
        proof {
            lemma_find_bounds(frame@, 10, start as int);
            lemma_find_shift(frame@, 10, start as int, start as int);
            lemma_find_bounds(rest, 10, 0);
            assert(rest.subrange(0, e - start) =~= frame@.subrange(start as int, e as int));
        }
        let line = if e > start && frame[e - 1] == 13 {
            let l = copy_range(frame, start, e - 1);
            assert(l@ =~= frame@.subrange(start as int, e as int).drop_last());
            l
        } else {
            copy_range(frame, start, e)
        };
        assert(line@ == strip_cr(rest.subrange(0, e - start)));
        if line.len() == 0 {
            return None;
        }
        let is_host = line.len() >= 5 && {
            let name = copy_range(line.as_slice(), 0, 4);
            let word: Vec<u8> = vec![104u8, 111, 115, 116];
            assert(word@ =~= host_word());
            equal_ignoring_case(name.as_slice(), word.as_slice()) && line[4] == 58
        };
        if is_host {
            let value = copy_range(line.as_slice(), 5, line.len());
            let v = value.as_slice();
            let s0 = skip_spaces(v, 0);
            proof {
                lemma_skip_bounds(v@, 0);
            }
            let t = copy_range(v, s0, v.len());
            let e1 = trimmed_end(t.as_slice());
            proof {
                lemma_back_bounds(t@, t@.len() as int);
            }
            return Some(copy_range(t.as_slice(), 0, e1));
        }
        if e >= frame.len() {
            return None;
        }
        assert(rest.subrange(e - start + 1, rest.len() as int) =~= frame@.subrange(
            e + 1,
            frame@.len() as int,
        ));
        start = e + 1;
    }
    None
}

/// Host, port and path that a plain request goes to: from an absolute
/// `http://` target, else from the `Host` header, else `127.0.0.1:80`.
pub fn resolve_target(frame: &[u8], target: &[u8]) -> (r: ParsedTarget)
    ensures
        r@ == resolve(frame@, target@),
{
    let prefix: Vec<u8> = vec![104u8, 116, 116, 112, 58, 47, 47];
    assert(prefix@ =~= http_prefix());
    if starts_with(target, prefix.as_slice()) {
        let rest = copy_range(target, 7, target.len());
        let sl = find_byte(rest.as_slice(), 47, 0);
        proof {
            lemma_find_bounds(rest@, 47, 0);
        }
        let authority = copy_range(rest.as_slice(), 0, sl);
        let (host, port) = split_host_and_port(authority.as_slice());
        let path = if sl < rest.len() {
            copy_range(rest.as_slice(), sl, rest.len())
        } else {
            let p: Vec<u8> = vec![47u8];
            assert(p@ =~= root_path());
            p
        };
        ParsedTarget { host, port, path }
    } else {
        let path = copy_range(target, 0, target.len());
        assert(path@ =~= target@);
        match find_host_header(frame) {
            Some(v) => {
                let (host, port) = split_host_and_port(v.as_slice());
                ParsedTarget { host, port, path }
            },
            None => {
                let host: Vec<u8> = vec![49u8, 50, 55, 46, 48, 46, 48, 46, 49];
                assert(host@ =~= loopback());
                ParsedTarget { host, port: DEFAULT_PORT, path }
            },
        }
    }
}

/// Where a plain request goes: host, port and path.
pub struct ParsedTarget {
    pub host: Vec<u8>,
    pub port: u16,
    pub path: Vec<u8>,
}

impl View for ParsedTarget {
    type V = (Seq<u8>, u16, Seq<u8>);

    open spec fn view(&self) -> (Seq<u8>, u16, Seq<u8>) {
        (self.host@, self.port, self.path@)
    }
}

/// The minimal request sent upstream in place of the client's:
/// `<method> <path> HTTP/1.1\r\nHost: <host>\r\nConnection: close\r\n\r\n`.
pub fn forward_request(method: &[u8], path: &[u8], host: &[u8]) -> (r: Vec<u8>)
    ensures
        r@ == forward_request_of(method@, path@, host@),
{
    let mut r: Vec<u8> = Vec::new();
    push_all(&mut r, method);
    r.push(32);
    push_all(&mut r, path);
    let mid: Vec<u8> = vec![32u8, 72, 84, 84, 80, 47, 49, 46, 49, 13, 10, 72, 111, 115, 116, 58, 32];
    assert(mid@ =~= version_and_host());
    push_all(&mut r, mid.as_slice());
    push_all(&mut r, host);
    let tail: Vec<u8> = vec![
        13u8, 10, 67, 111, 110, 110, 101, 99, 116, 105, 111, 110, 58, 32, 99, 108, 111, 115, 101,
        13, 10, 13, 10,
    ];
    assert(tail@ =~= close_tail());
    push_all(&mut r, tail.as_slice());
    assert(r@ =~= forward_request_of(method@, path@, host@));
    r
}

/// The label of a plain exchange: `<method> <path> [Host: <host>]`.
pub fn forward_label(method: &[u8], path: &[u8], host: &[u8]) -> (r: Vec<u8>)
    ensures
        r@ == forward_label_of(method@, path@, host@),
{
    let mut r: Vec<u8> = Vec::new();
    push_all(&mut r, method);
    r.push(32);
    push_all(&mut r, path);
    let tag: Vec<u8> = vec![32u8, 91, 72, 111, 115, 116, 58, 32];
    assert(tag@ =~= host_tag());
    push_all(&mut r, tag.as_slice());
    push_all(&mut r, host);
    r.push(93);
    assert(r@ =~= forward_label_of(method@, path@, host@));
    r
}

/// The label of an established tunnel: `CONNECT <target>`.
pub fn connect_label(target: &[u8]) -> (r: Vec<u8>)
    ensures
        r@ == connect_label_of(target@),
{
    let mut r: Vec<u8> = vec![67u8, 79, 78, 78, 69, 67, 84, 32];
    assert(r@ =~= connect_word() + seq![32u8]);
    push_all(&mut r, target);
    r
}

/// The label of traffic seen in a tunnel: `Tunnel <target>`.
pub fn tunnel_label(target: &[u8]) -> (r: Vec<u8>)
    ensures
        r@ == tunnel_label_of(target@),
{
    let mut r: Vec<u8> = vec![84u8, 117, 110, 110, 101, 108, 32];
    assert(r@ =~= seq![84u8, 117, 110, 110, 101, 108, 32]);
    push_all(&mut r, target);
    r
}

/// `s` with each `\r\n` replaced by `\n`.
pub fn normalize_newlines(s: &[u8]) -> (r: Vec<u8>)
    ensures
        r@ == normalize(s@),
{
    let mut r: Vec<u8> = Vec::new();
    let mut k: usize = 0;
    assert(s@.subrange(0, s@.len() as int) =~= s@);
    while k < s.len()
        invariant
            k <= s@.len(),
            r@ + normalize(s@.subrange(k as int, s@.len() as int)) == normalize(s@),
        decreases s@.len() - k,
    {
        let ghost rest = s@.subrange(k as int, s@.len() as int);
        if k + 1 < s.len() && s[k] == 13 && s[k + 1] == 10 {
            assert(rest.subrange(2, rest.len() as int) =~= s@.subrange(k + 2, s@.len() as int));
            assert(r@.push(10) + normalize(s@.subrange(k + 2, s@.len() as int)) =~= r@ + normalize(
                rest,
            ));
            r.push(10);
            k = k + 2;
        } else {
            assert(rest.subrange(1, rest.len() as int) =~= s@.subrange(k + 1, s@.len() as int));
            assert(r@.push(s@[k as int]) + normalize(s@.subrange(k + 1, s@.len() as int))
                =~= r@ + normalize(rest));
            r.push(s[k]);
            k = k + 1;
        }
    }
    assert(normalize(s@.subrange(k as int, s@.len() as int)) =~= Seq::<u8>::empty());
    assert(r@ + Seq::<u8>::empty() =~= r@);
    r
}

/// An absolute target `http://<host>:<port>/<path>` resolves to that host,
/// that port and `/<path>`, whatever the headers say.
pub proof fn lemma_absolute_target(frame: Seq<u8>, host: Seq<u8>, digits: Seq<u8>, port: u16, path: Seq<u8>)
    requires
        lacks(host, 58),
        lacks(host, 47),
        port_of(digits) == Some(port),
    ensures
        resolve(frame, http_prefix() + host + seq![58u8] + digits + seq![47u8] + path) == (
            host,
            port,
            seq![47u8] + path,
        ),
{
    let target = http_prefix() + host + seq![58u8] + digits + seq![47u8] + path;
    assert(target.subrange(0, 7) =~= http_prefix());
    let rest = target.subrange(7, target.len() as int);
    assert(rest =~= host + seq![58u8] + digits + seq![47u8] + path);
    let j: int = host.len() as int + 1 + digits.len() as int;
    assert forall|k: int| 0 <= k < j implies #[trigger] rest[k] != 47 by {
        if k < host.len() {
            assert(rest[k] == host[k]);
        } else if k > host.len() {
            assert(rest[k] == digits[k - host.len() - 1]);
        }
    }
    lemma_find_skip(rest, 47, 0, j);
    assert(rest[j] == 47);
    let auth = rest.subrange(0, j);
    assert(auth =~= host + seq![58u8] + digits);
    assert forall|k: int| 0 <= k < host.len() implies #[trigger] auth[k] != 58 by {
        assert(auth[k] == host[k]);
    }
    lemma_find_skip(auth, 58, 0, host.len() as int);
    assert(auth.subrange(0, host.len() as int) =~= host);
    assert(auth.subrange(host.len() as int + 1, auth.len() as int) =~= digits);
    assert(rest.subrange(j, rest.len() as int) =~= seq![47u8] + path);
}

/// An absolute target `http://<host>/<path>` with no port resolves to that
/// host, port 80 and `/<path>`.
pub proof fn lemma_absolute_target_default_port(frame: Seq<u8>, host: Seq<u8>, path: Seq<u8>)
    requires
        lacks(host, 58),
        lacks(host, 47),
    ensures
        resolve(frame, http_prefix() + host + seq![47u8] + path) == (host, DEFAULT_PORT, seq![47u8] + path),
{
    let target = http_prefix() + host + seq![47u8] + path;
    assert(target.subrange(0, 7) =~= http_prefix());
    let rest = target.subrange(7, target.len() as int);
    assert(rest =~= host + seq![47u8] + path);
    assert forall|k: int| 0 <= k < host.len() implies #[trigger] rest[k] != 47 by {
        assert(rest[k] == host[k]);
    }
    lemma_find_skip(rest, 47, 0, host.len() as int);
    let auth = rest.subrange(0, host.len() as int);
    assert(auth =~= host);
    lemma_find_skip(auth, 58, 0, host.len() as int);
    assert(auth.subrange(0, host.len() as int) =~= host);
    assert(rest.subrange(host.len() as int, rest.len() as int) =~= seq![47u8] + path);
}

/// Without an absolute target, a `Host: <host>:<port>` header gives that host
/// and port, and the target is the path.
pub proof fn lemma_host_header_target(frame: Seq<u8>, target: Seq<u8>, host: Seq<u8>, digits: Seq<u8>, port: u16)
    requires
        !(target.len() >= 7 && target.subrange(0, 7) == http_prefix()),
        host_header(frame) == Some(host + seq![58u8] + digits),
        lacks(host, 58),
        port_of(digits) == Some(port),
    ensures
        resolve(frame, target) == (host, port, target),
{
    let v = host + seq![58u8] + digits;
    assert forall|k: int| 0 <= k < host.len() implies #[trigger] v[k] != 58 by {
        assert(v[k] == host[k]);
    }
    lemma_find_skip(v, 58, 0, host.len() as int);
    assert(v.subrange(0, host.len() as int) =~= host);
    assert(v.subrange(host.len() as int + 1, v.len() as int) =~= digits);
}

/// Without an absolute target, a `Host: <host>` header with no port gives that
/// host and port 80, and the target is the path.
pub proof fn lemma_host_header_default_port(frame: Seq<u8>, target: Seq<u8>, host: Seq<u8>)
    requires
        !(target.len() >= 7 && target.subrange(0, 7) == http_prefix()),
        host_header(frame) == Some(host),
        lacks(host, 58),
    ensures
        resolve(frame, target) == (host, DEFAULT_PORT, target),
{
    lemma_find_skip(host, 58, 0, host.len() as int);
    assert(host.subrange(0, host.len() as int) =~= host);
}

/// With neither an absolute target nor a `Host` header, a request goes to
/// `127.0.0.1:80` with its target as the path.
pub proof fn lemma_no_host_target(frame: Seq<u8>, target: Seq<u8>)
    requires
        !(target.len() >= 7 && target.subrange(0, 7) == http_prefix()),
        host_header(frame).is_none(),
    ensures
        resolve(frame, target) == (loopback(), DEFAULT_PORT, target),
{
}

/// No byte of `s` is whitespace.
pub open spec fn no_ws(s: Seq<u8>) -> bool {
    forall|k: int| 0 <= k < s.len() ==> !is_ws(#[trigger] s[k])
}

/// A frame that starts `<method> <target> <version>\r\n` has that method and target.
pub proof fn lemma_request_line(method: Seq<u8>, target: Seq<u8>, version: Seq<u8>, rest: Seq<u8>)
    requires
        method.len() > 0,
        target.len() > 0,
        no_ws(method),
        no_ws(target),
        no_ws(version),
    ensures
        request_line_of(method + seq![32u8] + target + seq![32u8] + version + seq![13u8, 10] + rest)
            == Some((method, target)),
{
    let frame = method + seq![32u8] + target + seq![32u8] + version + seq![13u8, 10] + rest;
    let l = method + seq![32u8] + target + seq![32u8] + version;
    let n: int = l.len() as int;
    assert forall|k: int| 0 <= k < n + 1 implies #[trigger] frame[k] != 10 by {
        if k < n {
            assert(frame[k] == l[k]);
            if k < method.len() {
                assert(l[k] == method[k]);
            } else if method.len() < k < method.len() + 1 + target.len() {
                assert(l[k] == target[k - method.len() - 1]);
            } else if k > method.len() + 1 + target.len() {
                assert(l[k] == version[k - method.len() - 2 - target.len()]);
            }
        }
    }
    lemma_find_skip(frame, 10, 0, n + 1);
    assert(frame[n + 1] == 10);
    assert(frame.subrange(0, n + 1).drop_last() =~= l);
    assert(first_line(frame) == l);
    let m = method.len() as int;
    assert(!is_ws(l[0])) by {
        assert(l[0] == method[0]);
    }
    assert forall|k: int| 0 <= k < m implies !is_ws(#[trigger] l[k]) by {
        assert(l[k] == method[k]);
    }
    lemma_to_ws_skip(l, 0, m);
    assert(is_ws(l[m]));
    lemma_skip_ws_skip(l, m, m + 1);
    assert(!is_ws(l[m + 1])) by {
        assert(l[m + 1] == target[0]);
    }
    let e = m + 1 + target.len();
    assert forall|k: int| m + 1 <= k < e implies !is_ws(#[trigger] l[k]) by {
        assert(l[k] == target[k - m - 1]);
    }
    lemma_to_ws_skip(l, m + 1, e);
    assert(is_ws(l[e]));
    assert(l.subrange(0, m) =~= method);
    assert(l.subrange(m + 1, e) =~= target);
}

/// A request `<method> http://<host>:<port>/<path> <version>\r\n...` goes to
/// that host, that port and `/<path>`.
pub proof fn lemma_absolute_request(
    method: Seq<u8>,
    host: Seq<u8>,
    digits: Seq<u8>,
    port: u16,
    path: Seq<u8>,
    version: Seq<u8>,
    rest: Seq<u8>,
)
    requires
        method.len() > 0,
        no_ws(method),
        no_ws(host),
        no_ws(path),
        no_ws(version),
        lacks(host, 58),
        lacks(host, 47),
        port_of(digits) == Some(port),
    ensures
        ({
            let target = http_prefix() + host + seq![58u8] + digits + seq![47u8] + path;
            let frame = method + seq![32u8] + target + seq![32u8] + version + seq![13u8, 10] + rest;
            &&& line_target(request_line_of(frame)) == target
            &&& resolve(frame, target) == (host, port, seq![47u8] + path)
        }),
{
    let target = http_prefix() + host + seq![58u8] + digits + seq![47u8] + path;
    let frame = method + seq![32u8] + target + seq![32u8] + version + seq![13u8, 10] + rest;
    let a = host.len() as int + 7;
    let b = a + 1 + digits.len();
    assert forall|k: int| 0 <= k < target.len() implies !is_ws(#[trigger] target[k]) by {
        if 7 <= k < a {
            assert(target[k] == host[k - 7]);
        } else if a < k < b {
            assert(target[k] == digits[k - a - 1]);
        } else if k > b {
            assert(target[k] == path[k - b - 1]);
        }
    }
    lemma_request_line(method, target, version, rest);
    lemma_absolute_target(frame, host, digits, port, path);
}

/// A `Host: <value>\r\n` line (name in any case) right after the first line
/// is the `Host` header of the frame.
pub proof fn lemma_host_line_found(line0: Seq<u8>, name: Seq<u8>, value: Seq<u8>, rest: Seq<u8>)
    requires
        lacks(line0, 10),
        eq_ignore_case(name, host_word()),
        value.len() > 0,
        lacks(value, 10),
        !is_ws(value[0]),
        !is_ws(value.last()),
    ensures
        host_header(line0 + seq![10u8] + name + seq![58u8, 32] + value + seq![13u8, 10] + rest)
            == Some(value),
{
    let frame = line0 + seq![10u8] + name + seq![58u8, 32] + value + seq![13u8, 10] + rest;
    let n = line0.len() as int;
    assert forall|k: int| 0 <= k < n implies #[trigger] frame[k] != 10 by {
        assert(frame[k] == line0[k]);
    }
    lemma_find_skip(frame, 10, 0, n);
    assert(frame[n] == 10);
    let r1 = frame.subrange(n + 1, frame.len() as int);
    let l = name + seq![58u8, 32] + value;
    assert(r1 =~= l + seq![13u8, 10] + rest);
    let e = l.len() as int + 1;
    assert forall|k: int| 0 <= k < e implies #[trigger] r1[k] != 10 by {
        if k < 4 {
            assert(r1[k] == name[k]);
            assert(lower(name[k]) == lower(host_word()[k]));
        } else if 6 <= k < l.len() {
            assert(r1[k] == value[k - 6]);
        }
    }
    lemma_find_skip(r1, 10, 0, e);
    assert(r1[e] == 10);
    assert(r1.subrange(0, e).last() == 13);
    assert(r1.subrange(0, e).drop_last() =~= l);
    assert(strip_cr(r1.subrange(0, e)) == l);
    assert(l.subrange(0, 4) =~= name);
    assert(is_host_line(l));
    let s = l.subrange(5, l.len() as int);
    assert(s =~= seq![32u8] + value);
    assert(s[1] == value[0]);
    assert(skip_ws(s, 1) == 1);
    assert(skip_ws(s, 0) == 1);
    let t = s.subrange(1, s.len() as int);
    assert(t =~= value);
    assert(t[t.len() - 1] == value.last());
    assert(back_ws(t, t.len() as int) == t.len());
    assert(t.subrange(0, t.len() as int) =~= value);
    assert(trim(s) == value);
    assert(host_in_headers(r1) == Some(value));
}

proof fn lemma_lacks_subrange(s: Seq<u8>, b: u8, i: int, j: int)
    requires
        lacks(s, b),
        0 <= i <= j <= s.len(),
    ensures
        lacks(s.subrange(i, j), b),
{
    assert forall|k: int| 0 <= k < j - i implies #[trigger] s.subrange(i, j)[k] != b by {
        assert(s.subrange(i, j)[k] == s[k + i]);
    }
}

proof fn lemma_trim_lacks(s: Seq<u8>, b: u8)
    requires
        lacks(s, b),
    ensures
        lacks(trim(s), b),
{
    lemma_skip_bounds(s, 0);
    let t = s.subrange(skip_ws(s, 0), s.len() as int);
    lemma_lacks_subrange(s, b, skip_ws(s, 0), s.len() as int);
    lemma_back_bounds(t, t.len() as int);
    lemma_lacks_subrange(t, b, 0, back_ws(t, t.len() as int));
}

proof fn lemma_host_in_headers_lacks(rest: Seq<u8>)
    ensures
        host_in_headers(rest) matches Some(v) ==> lacks(v, 10),
    decreases rest.len(),
{
    if rest.len() > 0 {
        let e = find_from(rest, 10, 0);
        lemma_find_bounds(rest, 10, 0);
        let l0 = rest.subrange(0, e);
        assert(lacks(l0, 10)) by {
            assert forall|k: int| 0 <= k < l0.len() implies #[trigger] l0[k] != 10 by {
                assert(l0[k] == rest[k]);
            }
        }
        let l = strip_cr(l0);
        if l0.len() > 0 && l0.last() == 13 {
            lemma_lacks_subrange(l0, 10, 0, l0.len() - 1);
            assert(l0.drop_last() =~= l0.subrange(0, l0.len() - 1));
        }
        if l.len() > 0 && is_host_line(l) {
            lemma_lacks_subrange(l, 10, 5, l.len() as int);
            lemma_trim_lacks(l.subrange(5, l.len() as int), 10);
        } else if l.len() > 0 && e < rest.len() {
            lemma_host_in_headers_lacks(rest.subrange(e + 1, rest.len() as int));
        }
    }
}

proof fn lemma_split_lacks(v: Seq<u8>)
    requires
        lacks(v, 10),
    ensures
        lacks(split_host_port(v).0, 10),
{
    lemma_find_bounds(v, 58, 0);
    lemma_lacks_subrange(v, 10, 0, find_from(v, 58, 0));
}

/// Method and target of a frame hold no line feed.
pub proof fn lemma_request_line_lacks(frame: Seq<u8>)
    ensures
        lacks(line_method(request_line_of(frame)), 10),
        lacks(line_target(request_line_of(frame)), 10),
{
    let l = first_line(frame);
    let m0 = skip_ws(l, 0);
    let m1 = to_ws(l, m0);
    let t0 = skip_ws(l, m1);
    let t1 = to_ws(l, t0);
    if m0 < l.len() && t0 < l.len() {
        lemma_skip_bounds(l, 0);
        lemma_to_ws_bounds(l, m0);
        lemma_skip_bounds(l, m1);
        lemma_to_ws_bounds(l, t0);
        assert forall|k: int| 0 <= k < m1 - m0 implies #[trigger] l.subrange(m0, m1)[k] != 10 by {
            assert(l.subrange(m0, m1)[k] == l[k + m0]);
        }
        assert forall|k: int| 0 <= k < t1 - t0 implies #[trigger] l.subrange(t0, t1)[k] != 10 by {
            assert(l.subrange(t0, t1)[k] == l[k + t0]);
        }
    }
}

/// Where the target holds no line feed, neither do the host and path it resolves to.
pub proof fn lemma_resolve_lacks(frame: Seq<u8>, target: Seq<u8>)
    requires
        lacks(target, 10),
    ensures
        lacks(resolve(frame, target).0, 10),
        lacks(resolve(frame, target).2, 10),
{
    if target.len() >= 7 && target.subrange(0, 7) == http_prefix() {
        let rest = target.subrange(7, target.len() as int);
        lemma_lacks_subrange(target, 10, 7, target.len() as int);
        let sl = find_from(rest, 47, 0);
        lemma_find_bounds(rest, 47, 0);
        lemma_lacks_subrange(rest, 10, 0, sl);
        lemma_split_lacks(rest.subrange(0, sl));
        lemma_lacks_subrange(rest, 10, sl, rest.len() as int);
    } else {
        let e = find_from(frame, 10, 0);
        if e < frame.len() {
            lemma_host_in_headers_lacks(frame.subrange(e + 1, frame.len() as int));
        }
        match host_header(frame) {
            Some(v) => lemma_split_lacks(v),
            None => {},
        }
    }
}

/// The request sent upstream has exactly four line feeds, for its request
/// line, one `Host` header, one `Connection: close` header and the blank line,
/// and ends in `\r\n\r\n`, when method, path and host hold none.
pub proof fn lemma_forward_request_lines(method: Seq<u8>, path: Seq<u8>, host: Seq<u8>)
    requires
        lacks(method, 10),
        lacks(path, 10),
        lacks(host, 10),
    ensures
        count(forward_request_of(method, path, host), 10) == 4,
        forward_request_of(method, path, host).len() >= 4,
        forward_request_of(method, path, host).subrange(
            forward_request_of(method, path, host).len() - 4,
            forward_request_of(method, path, host).len() as int,
        ) == seq![13u8, 10, 13, 10],
{
    let r = forward_request_of(method, path, host);
    lemma_lacks_count(method, 10);
    lemma_lacks_count(path, 10);
    lemma_lacks_count(host, 10);
    assert(count(seq![32u8], 10) == 0) by {
        reveal_with_fuel(count, 2);
    }
    assert(count(version_and_host(), 10) == 1) by {
        reveal_with_fuel(count, 18);
    }
    assert(count(close_tail(), 10) == 3) by {
        reveal_with_fuel(count, 24);
    }
    lemma_count_add(method, seq![32u8], 10);
    lemma_count_add(method + seq![32u8], path, 10);
    lemma_count_add(method + seq![32u8] + path, version_and_host(), 10);
    lemma_count_add(method + seq![32u8] + path + version_and_host(), host, 10);
    lemma_count_add(method + seq![32u8] + path + version_and_host() + host, close_tail(), 10);
    assert(r.subrange(r.len() - 4, r.len() as int) =~= seq![13u8, 10, 13, 10]);
}

} // verus!
