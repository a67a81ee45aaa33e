//! The export of metrics over HTTP: where it goes, what is sent, and how the
//! answer is read.

use vstd::prelude::*;
use crate::obs::metrics::{export_text, flat, Metrics};
use crate::text::{
    cat2, cat3, cat4, chars_between, chars_of, dec_text, find_chars, find_from, lemma_decimal_read,
    lemma_find, occurs_at, parse_u64, starts, str_starts, string_of, trim_text, trimmed, u64_of,
    u64_text, utf8_string,
};
use crate::bytes::slice_of;
use vstd::string::StringSliceAdditionalSpecFns;
use vstd::utf8::{decode_utf8, encode_utf8, valid_utf8};

verus! {

/// Where metrics, traces and logs go.
#[derive(Clone, Debug, PartialEq, Eq)]
pub struct OtlpConfig {
    pub enabled: bool,
    pub metrics_endpoint: String,
    pub traces_endpoint: String,
    pub logs_endpoint: String,
    pub timeout_ms: u64,
}

/// The configuration as a mathematical object.
#[verifier::ext_equal]
pub struct OtlpConfigV {
    pub enabled: bool,
    pub metrics_endpoint: Seq<char>,
    pub traces_endpoint: Seq<char>,
    pub logs_endpoint: Seq<char>,
    pub timeout_ms: u64,
}

impl DeepView for OtlpConfig {
    type V = OtlpConfigV;

    open spec fn deep_view(&self) -> OtlpConfigV {
        OtlpConfigV {
            enabled: self.enabled,
            metrics_endpoint: self.metrics_endpoint@,
            traces_endpoint: self.traces_endpoint@,
            logs_endpoint: self.logs_endpoint@,
            timeout_ms: self.timeout_ms,
        }
    }
}

/// The conventional endpoints of a collector on this machine.
pub open spec fn default_otlp() -> OtlpConfigV {
    OtlpConfigV {
        enabled: true,
        metrics_endpoint: "http://127.0.0.1:4318/v1/metrics"@,
        traces_endpoint: "http://127.0.0.1:4318/v1/traces"@,
        logs_endpoint: "http://127.0.0.1:4318/v1/logs"@,
        timeout_ms: 1000,
    }
}

impl Default for OtlpConfig {
    fn default() -> (r: Self)
        ensures
            r.deep_view() == default_otlp(),
    {
        OtlpConfig {
            enabled: true,
            metrics_endpoint: "http://127.0.0.1:4318/v1/metrics".to_string(),
            traces_endpoint: "http://127.0.0.1:4318/v1/traces".to_string(),
            logs_endpoint: "http://127.0.0.1:4318/v1/logs".to_string(),
            timeout_ms: 1000,
        }
    }
}

impl OtlpConfig {
    /// A copy.
    pub fn dup(&self) -> (r: Self)
        ensures
            r.deep_view() == self.deep_view(),
    {
        OtlpConfig {
            enabled: self.enabled,
            metrics_endpoint: self.metrics_endpoint.as_str().to_string(),
            traces_endpoint: self.traces_endpoint.as_str().to_string(),
            logs_endpoint: self.logs_endpoint.as_str().to_string(),
            timeout_ms: self.timeout_ms,
        }
    }
}

/// What an export did.
#[derive(Clone, Debug, PartialEq, Eq)]
pub struct OtlpExportReceipt {
    pub endpoint: String,
    pub status_code: Option<u16>,
    pub bytes: usize,
    pub skipped: bool,
}

/// The place of the last colon before `n`.
pub open spec fn last_colon(s: Seq<char>, n: int) -> Option<int>
    decreases n,
{
    if n <= 0 || n > s.len() {
        None
    } else if s[n - 1] == ':' {
        Some(n - 1)
    } else {
        last_colon(s, n - 1)
    }
}

/// A square bracket.
pub open spec fn is_bracket(c: char) -> bool {
    c == '[' || c == ']'
}

/// The text without brackets in front.
pub open spec fn bare_front(s: Seq<char>) -> Seq<char>
    decreases s.len(),
{
    if s.len() > 0 && is_bracket(s[0]) {
        bare_front(s.skip(1))
    } else {
        s
    }
}

/// The text without brackets behind.
pub open spec fn bare_back(s: Seq<char>) -> Seq<char>
    decreases s.len(),
{
    if s.len() > 0 && is_bracket(s.last()) {
        bare_back(s.drop_last())
    } else {
        s
    }
}

/// The port that a text stands for.
pub open spec fn port_of(s: Seq<char>) -> Option<u16> {
    match u64_of(s) {
        Some(n) => if n <= u16::MAX {
            Some(n as u16)
        } else {
            None
        },
        None => None,
    }
}

/// The authority and the path of an address without its scheme.
pub open spec fn split_path(rest: Seq<char>) -> (Seq<char>, Seq<char>) {
    match find_from(rest, "/"@, 0) {
        Some(i) => (
            rest.take(i),
            if i + 1 == rest.len() {
                "/"@
            } else {
                "/"@ + rest.skip(i + 1)
            },
        ),
        None => (rest, "/"@),
    }
}

/// The host, port and path of an endpoint.
pub open spec fn endpoint_of(s: Seq<char>) -> Result<(Seq<char>, u16, Seq<char>), Seq<char>> {
    if !starts(s, "http://"@) {
        Err("OTLP endpoint must use http://: "@ + s)
    } else {
        let (authority, path) = split_path(s.skip(7));
        match last_colon(authority, authority.len() as int) {
            Some(i) => match port_of(authority.skip(i + 1)) {
                None => Err("OTLP endpoint has invalid port: "@ + s),
                Some(port) => {
                    let host = bare_back(bare_front(authority.take(i)));
                    if host.len() == 0 {
                        Err("OTLP endpoint has empty host: "@ + s)
                    } else {
                        Ok((host, port, path))
                    }
                },
            },
            None => if authority.len() == 0 {
                Err("OTLP endpoint has empty host: "@ + s)
            } else {
                Ok((authority, 80u16, path))
            },
        }
    }
}

/// An address is read back as what it was made of: the host, the port and the
/// path.
pub proof fn lemma_endpoint_read(host: Seq<char>, port: u16, path: Seq<char>)
    requires
        host.len() > 0,
        forall|i: int| 0 <= i < host.len() ==> #[trigger] host[i] != '/',
        !is_bracket(host[0]),
        !is_bracket(host.last()),
    ensures
        endpoint_of("http://"@ + host + ":"@ + dec_text(port as nat) + "/"@ + path) == Ok::<
            (Seq<char>, u16, Seq<char>),
            Seq<char>,
        >((host, port, "/"@ + path)),
        endpoint_of("http://"@ + host + ":"@ + dec_text(port as nat)) == Ok::<
            (Seq<char>, u16, Seq<char>),
            Seq<char>,
        >((host, port, "/"@)),
        (forall|i: int| 0 <= i < host.len() ==> #[trigger] host[i] != ':') ==> endpoint_of(
            "http://"@ + host,
        ) == Ok::<(Seq<char>, u16, Seq<char>), Seq<char>>((host, 80u16, "/"@)),
{
    reveal_strlit("http://");
    reveal_strlit(":");
    reveal_strlit("/");
    let d = dec_text(port as nat);
    lemma_decimal_read(port as nat);
    let auth = host + ":"@ + d;
    let full = "http://"@ + host + ":"@ + d + "/"@ + path;
    let bare = "http://"@ + host + ":"@ + d;
    let only = "http://"@ + host;
    assert(full.take(7) =~= "http://"@);
    assert(bare.take(7) =~= "http://"@);
    assert(only.take(7) =~= "http://"@);
    assert(full.subrange(0, 7) =~= "http://"@);
    assert(bare.subrange(0, 7) =~= "http://"@);
    assert(only.subrange(0, 7) =~= "http://"@);
    let rest = full.skip(7);
    assert(rest =~= auth + "/"@ + path);
    assert(bare.skip(7) =~= auth);
    assert(only.skip(7) =~= host);
    assert forall|i: int| 0 <= i < auth.len() implies #[trigger] auth[i] != '/' by {
        if i > host.len() {
            assert(auth[i] == d[i - host.len() - 1]);
        }
    }
    lemma_no_slash(auth);
    lemma_no_slash(host);
    lemma_find(rest, "/"@, 0);
    assert(rest.subrange(auth.len() as int, auth.len() + 1int) =~= "/"@);
    assert(occurs_at(rest, "/"@, auth.len() as int));
    let at = find_from(rest, "/"@, 0);
    assert(at is Some);
    assert(rest.subrange(at->0, at->0 + 1)[0] == rest[at->0]);
    assert(at->0 == auth.len());
    assert(rest.take(at->0) =~= auth);
    assert(rest.skip(at->0 + 1) =~= path);
    if path.len() == 0 {
        assert("/"@ + path =~= "/"@);
    }
    assert(split_path(rest) == (auth, "/"@ + path));
    lemma_colon_last(auth, host.len() as int, auth.len() as int);
    assert(auth.skip(host.len() + 1int) =~= d);
    assert(auth.take(host.len() as int) =~= host);
    if forall|i: int| 0 <= i < host.len() ==> #[trigger] host[i] != ':' {
        lemma_no_colon(host, host.len() as int);
    }
}

proof fn lemma_no_slash(s: Seq<char>)
    requires
        forall|i: int| 0 <= i < s.len() ==> #[trigger] s[i] != '/',
    ensures
        find_from(s, "/"@, 0) is None,
{
    reveal_strlit("/");
    lemma_find(s, "/"@, 0);
    if let Some(k) = find_from(s, "/"@, 0) {
        assert(s.subrange(k, k + 1)[0] == s[k]);
    }
}

proof fn lemma_no_colon(s: Seq<char>, n: int)
    requires
        0 <= n <= s.len(),
        forall|i: int| 0 <= i < s.len() ==> #[trigger] s[i] != ':',
    ensures
        last_colon(s, n) is None,
    decreases n,
{
    if n > 0 {
        lemma_no_colon(s, n - 1);
    }
}

proof fn lemma_colon_last(s: Seq<char>, p: int, n: int)
    requires
        0 <= p < n <= s.len(),
        s[p] == ':',
        forall|i: int| p < i < n ==> #[trigger] s[i] != ':',
    ensures
        last_colon(s, n) == Some(p),
    decreases n,
{
    if n - 1 > p {
        lemma_colon_last(s, p, n - 1);
    }
}

fn colon_place(s: &Vec<char>) -> (r: Option<usize>)
    ensures
        match r {
            Some(i) => last_colon(s@, s@.len() as int) == Some(i as int) && i < s@.len(),
            None => last_colon(s@, s@.len() as int) is None,
        },
{
    let mut n: usize = s.len();
    while n > 0
        invariant
            n <= s@.len(),
            last_colon(s@, s@.len() as int) == last_colon(s@, n as int),
        decreases n,
    {
        if s[n - 1] == ':' {
            return Some(n - 1);
        }
        n -= 1;
    }
    None
}

fn bare(s: Vec<char>) -> (r: Vec<char>)
    ensures
        r@ == bare_back(bare_front(s@)),
{
    let mut from: usize = 0;
    assert(s@.skip(0) =~= s@);
    while from < s.len() && (s[from] == '[' || s[from] == ']')
        invariant
            from <= s@.len(),
            bare_front(s@) == bare_front(s@.skip(from as int)),
        decreases s.len() - from,
    {
        assert(s@.skip(from as int)[0] == s@[from as int]);
        assert(s@.skip(from as int).skip(1) =~= s@.skip(from + 1));
        from += 1;
    }
    if from < s.len() {
        assert(s@.skip(from as int)[0] == s@[from as int]);
    }
    assert(bare_front(s@) == s@.skip(from as int));
    let mut to: usize = s.len();
    assert(s@.subrange(from as int, to as int) =~= s@.skip(from as int));
    while to > from && (s[to - 1] == '[' || s[to - 1] == ']')
        invariant
            from <= to <= s@.len(),
            bare_back(bare_front(s@)) == bare_back(s@.subrange(from as int, to as int)),
        decreases to,
    {
        let ghost cur = s@.subrange(from as int, to as int);
        assert(cur.last() == s@[to - 1]);
        assert(cur.drop_last() =~= s@.subrange(from as int, to - 1));
        to -= 1;
    }
    if to > from {
        assert(s@.subrange(from as int, to as int).last() == s@[to - 1]);
    }
    chars_between(s.as_slice(), from, to)
}

/// The host, port and path of an endpoint, which has to be plain HTTP.
pub fn parse_http_endpoint(endpoint: &str) -> (r: Result<(String, u16, String), String>)
    ensures
        match (r, endpoint_of(endpoint@)) {
            (Ok(a), Ok(b)) => a.0@ == b.0 && a.1 == b.1 && a.2@ == b.2,
            (Err(e), Err(w)) => e@ == w,
            _ => false,
        },
{
    if !str_starts(endpoint, "http://") {
        return Err(cat2("OTLP endpoint must use http://: ", endpoint));
    }
    proof {
        reveal_strlit("http://");
        assert("http://"@.len() == 7);
        reveal_strlit("/");
        assert("/"@.len() == 1);
    }
    let all = chars_of(endpoint);
    let rest = chars_between(all.as_slice(), 7, all.len());
    assert(rest@ =~= endpoint@.skip(7));
    let slash = chars_of("/");
    let (authority, path) = match find_chars(rest.as_slice(), slash.as_slice(), 0) {
        Some(i) => {
            let a = chars_between(rest.as_slice(), 0, i);
            assert(a@ =~= rest@.take(i as int));
            let p = if i + 1 == rest.len() {
                "/".to_string()
            } else {
                let tail = string_of(
                    chars_between(rest.as_slice(), i + 1, rest.len()).as_slice(),
                );
                assert(tail@ =~= rest@.skip(i + 1));
                cat2("/", tail.as_str())
            };
            (a, p)
        },
        None => (rest, "/".to_string()),
    };
    match colon_place(&authority) {
        Some(i) => {
            let tail = string_of(
                chars_between(authority.as_slice(), i + 1, authority.len()).as_slice(),
            );
            assert(tail@ =~= authority@.skip(i + 1));
            match parse_u64(tail.as_str()) {
                Some(n) if n <= 0xFFFF => {
                    let front = chars_between(authority.as_slice(), 0, i);
                    assert(front@ =~= authority@.take(i as int));
                    let host = bare(front);
                    if host.len() == 0 {
                        return Err(cat2("OTLP endpoint has empty host: ", endpoint));
                    }
                    Ok((string_of(host.as_slice()), n as u16, path))
                },
                _ => Err(cat2("OTLP endpoint has invalid port: ", endpoint)),
            }
        },
        None => {
            if authority.len() == 0 {
                return Err(cat2("OTLP endpoint has empty host: ", endpoint));
            }
            Ok((string_of(authority.as_slice()), 80, path))
        },
    }
}

/// The request that carries a body.
pub open spec fn request_text(host: Seq<char>, port: u16, path: Seq<char>, body: Seq<char>) -> Seq<
    char,
> {
    "POST "@ + path + " HTTP/1.1\r\nHost: "@ + host + ":"@ + dec_text(port as nat)
        + "\r\nContent-Type: application/json\r\nContent-Length: "@ + dec_text(
        encode_utf8(body).len(),
    ) + "\r\nConnection: close\r\n\r\n"@ + body
}

/// The request that carries a body.
pub fn http_request(host: &str, port: u16, path: &str, body: &str) -> (r: String)
    ensures
        r@ == request_text(host@, port, path@, body@),
{
    let mut out = String::new();
    out.append("POST ");
    out.append(path);
    out.append(" HTTP/1.1\r\nHost: ");
    out.append(host);
    out.append(":");
    out.append(u64_text(port as u64).as_str());
    out.append("\r\nContent-Type: application/json\r\nContent-Length: ");
    out.append(u64_text(body.as_bytes().len() as u64).as_str());
    out.append("\r\nConnection: close\r\n\r\n");
    out.append(body);
    assert(out@ =~= request_text(host@, port, path@, body@));
    out
}

/// The place of a byte from `i` on; the end where it does not occur.
pub open spec fn byte_place(b: Seq<u8>, x: u8, i: int) -> int
    decreases b.len() - i,
{
    if i < 0 || i >= b.len() {
        b.len() as int
    } else if b[i] == x {
        i
    } else {
        byte_place(b, x, i + 1)
    }
}

/// The status of an answer: the second word of its first line.
pub open spec fn status_of(response: Seq<u8>) -> Option<u16> {
    let line = response.take(byte_place(response, 10, 0));
    let a = byte_place(line, 32, 0);
    if a >= line.len() {
        None
    } else {
        let word = line.subrange(a + 1, byte_place(line, 32, a + 1));
        if valid_utf8(word) {
            port_of(trimmed(decode_utf8(word)))
        } else {
            None
        }
    }
}

fn place_of(b: &[u8], x: u8, from: usize) -> (r: usize)
    requires
        from <= b@.len(),
    ensures
        r == byte_place(b@, x, from as int),
        from <= r <= b@.len(),
{
    let mut i: usize = from;
    while i < b.len() && b[i] != x
        invariant
            from <= i <= b@.len(),
            byte_place(b@, x, from as int) == byte_place(b@, x, i as int),
        decreases b.len() - i,
    {
        i += 1;
    }
    i
}

/// The status of an answer.
pub fn http_status(endpoint: &str, response: &[u8]) -> (r: Result<u16, String>)
    ensures
        match (r, status_of(response@)) {
            (Ok(a), Some(b)) => a == b,
            (Err(e), None) => e@ == "OTLP endpoint "@ + endpoint@ + ": malformed HTTP status"@,
            _ => false,
        },
{
    let end: usize = place_of(response, 10, 0);
    let line = slice_of(response, 0, end);
    assert(line@ =~= response@.take(end as int));
    let a: usize = place_of(line.as_slice(), 32, 0);
    if a < line.len() {
        let b: usize = place_of(line.as_slice(), 32, a + 1);
        let word = slice_of(line.as_slice(), a + 1, b);
        if let Some(text) = utf8_string(word) {
            let t = trim_text(text.as_str());
            match parse_u64(t.as_str()) {
                Some(n) if n <= 0xFFFF => {
                    return Ok(n as u16);
                },
                _ => {},
            }
        }
    }
    Err(cat3("OTLP endpoint ", endpoint, ": malformed HTTP status"))
}

/// Exports metrics on demand.
#[derive(Debug)]
pub struct OtlpExporter {
    config: OtlpConfig,
}

impl View for OtlpExporter {
    type V = OtlpConfigV;

    closed spec fn view(&self) -> OtlpConfigV {
        self.config.deep_view()
    }
}

impl OtlpExporter {
    pub fn new(config: OtlpConfig) -> (r: OtlpExporter)
        ensures
            r@ == config.deep_view(),
    {
        OtlpExporter { config }
    }

    pub fn config(&self) -> (r: OtlpConfig)
        ensures
            r.deep_view() == self@,
    {
        self.config.dup()
    }

    pub fn configure(&mut self, config: OtlpConfig)
        ensures
            final(self)@ == config.deep_view(),
    {
        self.config = config;
    }

    /// How long to wait for the collector, in milliseconds.
    pub fn timeout_ms(&self) -> (r: u64)
        ensures
            r == if self@.timeout_ms == 0 {
                1
            } else {
                self@.timeout_ms
            },
    {
        if self.config.timeout_ms == 0 {
            1
        } else {
            self.config.timeout_ms
        }
    }

    /// The body to send, unless the export is switched off.
    pub fn metrics_body(&self, metrics: &Metrics) -> (r: Option<String>)
        ensures
            match r {
                Some(b) => self@.enabled && b@ == export_text(flat(metrics@)),
                None => !self@.enabled,
            },
    {
        if self.config.enabled {
            Some(metrics.otlp_json())
        } else {
            None
        }
    }

    /// What the export did, given the collector's status and the bytes sent; it
    /// only counts where the status says success.
    pub fn export_metrics(&self, reply: Result<(u16, usize), String>) -> (r: Result<
        OtlpExportReceipt,
        String,
    >)
        ensures
            if !self@.enabled {
                r is Ok && r->Ok_0.endpoint@ == self@.metrics_endpoint && r->Ok_0.status_code is None
                    && r->Ok_0.bytes == 0 && r->Ok_0.skipped
            } else {
                match reply {
                    Err(e) => r == Err::<OtlpExportReceipt, String>(e),
                    Ok((status, bytes)) => if 200 <= status < 300 {
                        r is Ok && r->Ok_0.endpoint@ == self@.metrics_endpoint
                            && r->Ok_0.status_code == Some(status) && r->Ok_0.bytes == bytes
                            && !r->Ok_0.skipped
                    } else {
                        r is Err && r->Err_0@ == "OTLP metrics endpoint "@ + self@.metrics_endpoint
                            + " returned HTTP "@ + dec_text(status as nat)
                    },
                }
            },
    {
        let endpoint = self.config.metrics_endpoint.as_str().to_string();
        if !self.config.enabled {
            return Ok(OtlpExportReceipt { endpoint, status_code: None, bytes: 0, skipped: true });
        }
        match reply {
            Err(e) => Err(e),
            Ok((status, bytes)) => {
                if 200 <= status && status < 300 {
                    Ok(
                        OtlpExportReceipt {
                            endpoint,
                            status_code: Some(status),
                            bytes,
                            skipped: false,
                        },
                    )
                } else {
                    Err(
                        cat4(
                            "OTLP metrics endpoint ",
                            endpoint.as_str(),
                            " returned HTTP ",
                            u64_text(status as u64).as_str(),
                        ),
                    )
                }
            },
        }
    }
}

} // verus!
