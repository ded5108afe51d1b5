//! What the server answers: the early checks on a request and the replies,
//! as plain values.

use vstd::prelude::*;

use crate::text::{decimal, decimal_string, digit_value, digits_value, is_digit};

verus! {

/// The body of a reply.
pub enum ReplyBody {
    Empty,
    Text(String),
    /// The found file, streamed in chunks.
    File,
}

/// An HTTP reply as plain values: status, headers in order, body.
pub struct Reply {
    pub status: u16,
    pub headers: Vec<(String, String)>,
    pub body: ReplyBody,
}

pub open spec fn headers_view(v: Seq<(String, String)>) -> Seq<(Seq<char>, Seq<char>)> {
    v.map_values(|h: (String, String)| (h.0@, h.1@))
}

pub open spec fn body_view(b: ReplyBody) -> Option<Seq<char>> {
    match b {
        ReplyBody::Text(t) => Some(t@),
        _ => None,
    }
}

/// The headers every error reply carries.
pub open spec fn text_headers() -> Seq<(Seq<char>, Seq<char>)> {
    seq![("Content-Type"@, "text/plain; charset=utf-8"@), ("X-Content-Type-Options"@, "nosniff"@)]
}

fn header(name: &str, value: String) -> (r: (String, String))
    ensures
        r.0@ == name@,
        r.1@ == value@,
{
    (String::from_str(name), value)
}

/// A plain-text reply with the given status and message.
pub fn text_reply(status: u16, message: &str) -> (r: Reply)
    ensures
        r.status == status,
        headers_view(r.headers@) == text_headers(),
        r.body matches ReplyBody::Text(t) && t@ == message@,
{
    let headers = vec![
        header("Content-Type", String::from_str("text/plain; charset=utf-8")),
        header("X-Content-Type-Options", String::from_str("nosniff")),
    ];
    proof {
        assert(headers_view(headers@) =~= text_headers());
    }
    Reply { status, headers, body: ReplyBody::Text(String::from_str(message)) }
}

/// The reply to a request the rate limiter refused; `wait_secs` is how long the
/// client must wait, and `Retry-After` says at least one second.
pub fn too_many_requests(wait_secs: u64) -> (r: Reply)
    ensures
        r.status == 429,
        headers_view(r.headers@) == seq![
            ("Retry-After"@, decimal(if wait_secs < 1 { 1 } else { wait_secs as nat })),
        ] + text_headers(),
        r.body matches ReplyBody::Text(t) && t@ == "Too Many Requests"@,
{
    let secs = if wait_secs < 1 { 1 } else { wait_secs };
    let headers = vec![
        header("Retry-After", decimal_string(secs)),
        header("Content-Type", String::from_str("text/plain; charset=utf-8")),
        header("X-Content-Type-Options", String::from_str("nosniff")),
    ];
    proof {
        assert(headers_view(headers@) =~= seq![
            ("Retry-After"@, decimal(if wait_secs < 1 { 1 } else { wait_secs as nat })),
        ] + text_headers());
    }
    Reply { status: 429, headers, body: ReplyBody::Text(String::from_str("Too Many Requests")) }
}

/// The reply when no file was found.
pub fn not_found() -> (r: Reply)
    ensures
        r.status == 404,
        headers_view(r.headers@) == text_headers(),
        r.body matches ReplyBody::Text(t) && t@ == "Not Found"@,
{
    text_reply(404, "Not Found")
}

/// The MIME type for a file path, from its extension.
pub uninterp spec fn mime_type_of(path: Seq<char>) -> Seq<char>;

/// Relies on `mime_guess::from_path(..).first_or_octet_stream()`: the MIME type
/// registered for the path's extension, `application/octet-stream` where none
/// is; it depends on the path alone.
#[verifier::external_body]
fn guess_mime(path: &str) -> (r: String)
    ensures
        r@ == mime_type_of(path@),
{
    let mime = mime_guess::from_path(path).first_or_octet_stream();
    mime.as_ref().to_string()
}

/// The reply that serves a file of `len` bytes with the given content type:
/// status 200, the type, the length, no ranges, no sniffing; the file itself
/// follows unless the request is a HEAD.
pub fn file_reply(head: bool, content_type: String, len: u64) -> (r: Reply)
    ensures
        r.status == 200,
        headers_view(r.headers@) == seq![
            ("Content-Type"@, content_type@),
            ("Content-Length"@, decimal(len as nat)),
            ("Accept-Ranges"@, "none"@),
            ("X-Content-Type-Options"@, "nosniff"@),
        ],
        head ==> r.body is Empty,
        !head ==> r.body is File,
{
    let ghost ct = content_type@;
    let headers = vec![
        header("Content-Type", content_type),
        header("Content-Length", decimal_string(len)),
        header("Accept-Ranges", String::from_str("none")),
        header("X-Content-Type-Options", String::from_str("nosniff")),
    ];
    proof {
        assert(headers_view(headers@) =~= seq![
            ("Content-Type"@, ct),
            ("Content-Length"@, decimal(len as nat)),
            ("Accept-Ranges"@, "none"@),
            ("X-Content-Type-Options"@, "nosniff"@),
        ]);
    }
    let body = if head {
        ReplyBody::Empty
    } else {
        ReplyBody::File
    };
    Reply { status: 200, headers, body }
}

/// The reply that serves the found file at `path`, of `len` bytes, typed by its
/// extension.
pub fn found_reply(head: bool, path: &str, len: u64) -> (r: Reply)
    ensures
        r.status == 200,
        headers_view(r.headers@) == seq![
            ("Content-Type"@, mime_type_of(path@)),
            ("Content-Length"@, decimal(len as nat)),
            ("Accept-Ranges"@, "none"@),
            ("X-Content-Type-Options"@, "nosniff"@),
        ],
        head ==> r.body is Empty,
        !head ==> r.body is File,
{
    file_reply(head, guess_mime(path), len)
}

/// Whether a header value is text as `HeaderValue::to_str` accepts it: visible
/// ASCII or tab.
pub open spec fn visible_ascii(v: Seq<u8>) -> bool {
    forall|i: int| 0 <= i < v.len() ==> (32 <= #[trigger] v[i] < 127 || v[i] == 9)
}

/// Whether every character of `d` is an ASCII digit.
pub open spec fn all_digits(d: Seq<char>) -> bool {
    forall|i: int| 0 <= i < d.len() ==> is_digit(#[trigger] d[i])
}

/// `s` without one leading `+`.
pub open spec fn without_plus(s: Seq<char>) -> Seq<char> {
    if s.len() > 0 && s[0] == '+' {
        s.skip(1)
    } else {
        s
    }
}

/// The number a text denotes as `u64::from_str` reads it: an optional `+`, then
/// one or more digits, with no other character.
pub open spec fn decimal_number(s: Seq<char>) -> Option<nat> {
    let d = without_plus(s);
    if d.len() > 0 && all_digits(d) {
        Some(digits_value(d))
    } else {
        None
    }
}

pub open spec fn bytes_as_chars(v: Seq<u8>) -> Seq<char> {
    v.map_values(|b: u8| b as char)
}

/// The length a `Content-Length` value declares; a value that is not a number
/// that fits counts as the largest length.
pub open spec fn declared_length(v: Seq<u8>) -> u64 {
    let n = decimal_number(bytes_as_chars(v));
    if visible_ascii(v) && n is Some && n->0 <= u64::MAX {
        n->0 as u64
    } else {
        u64::MAX
    }
}

/// The length that a `Content-Length` header value declares (see
/// `declared_length`).
pub fn content_length_of(v: &[u8]) -> (r: u64)
    ensures
        r == declared_length(v@),
{
    let ghost cs = bytes_as_chars(v@);
    let mut i: usize = 0;
    while i < v.len()
        invariant
            i <= v@.len(),
            forall|k: int| 0 <= k < i ==> (32 <= #[trigger] v@[k] < 127 || v@[k] == 9),
        decreases v@.len() - i,
    {
        let b = v[i];
        if !((32 <= b && b < 127) || b == 9) {
            return u64::MAX;
        }
        i = i + 1;
    }
    let start: usize = if v.len() > 0 && v[0] == 43 { 1 } else { 0 };
    let ghost d = without_plus(cs);
    proof {
        if v@.len() > 0 {
            assert(cs[0] == v@[0] as char);
            assert((v@[0] == 43) == (cs[0] == '+'));
        }
        assert(d =~= cs.skip(start as int));
    }
    if start >= v.len() {
        return u64::MAX;
    }
    let mut n: u64 = 0;
    let mut j: usize = start;
    while j < v.len()
        invariant
            start <= j <= v@.len(),
            d == cs.skip(start as int),
            d == without_plus(cs),
            cs == bytes_as_chars(v@),
            forall|k: int| start <= k < j ==> is_digit(#[trigger] cs[k]),
            n == digits_value(d.take(j - start)),
        decreases v@.len() - j,
    {
        let b = v[j];
        proof {
            assert(cs[j as int] == b as char);
            assert(d.take(j - start + 1).drop_last() == d.take(j - start));
            assert(d.take(j - start + 1).last() == cs[j as int]);
        }
        if !(48 <= b && b <= 57) {
            proof {
                assert((b as char) as u32 == b as u32);
                assert(d[j - start] == cs[j as int]);
                assert(!is_digit(cs[j as int]));
                assert(!is_digit(d[j - start]));
                assert(0 <= j - start < d.len());

            }
            return u64::MAX;
        }
        let dv = (b - 48) as u64;
        proof {
            assert((b as char) as u32 == b as u32);
            assert(digit_value(cs[j as int]) == dv);
        }
        match n.checked_mul(10) {
            Some(m) => match m.checked_add(dv) {
                Some(x) => {
                    n = x;
                },
                None => {
                    proof {
                        crate::text::lemma_digits_grow(d, j - start + 1);
                    }
                    return u64::MAX;
                },
            },
            None => {
                proof {
                    crate::text::lemma_digits_grow(d, j - start + 1);
                    assert(n * 10 <= n * 10 + dv);
                }
                return u64::MAX;
            },
        }
        j = j + 1;
    }
    proof {
        assert(d.take(d.len() as int) == d);
        assert forall|k: int| 0 <= k < d.len() implies is_digit(#[trigger] d[k]) by {
            assert(d[k] == cs[k + start]);
        }
        assert(all_digits(d));
    }
    n
}

} // verus!

verus! {

pub open spec fn bytes_view(v: Option<&[u8]>) -> Option<Seq<u8>> {
    match v {
        Some(b) => Some(b@),
        None => None,
    }
}

/// The status with which the early checks stop a request, or `None` where they
/// let it through: only GET and HEAD pass; then a `Content-Length` above the
/// limit (or unreadable) is refused.
pub open spec fn gate_status(method: Seq<char>, content_length: Option<Seq<u8>>, max_body_size: u64) -> Option<u16> {
    if !(method == "GET"@ || method == "HEAD"@) {
        Some(405)
    } else if content_length is Some && declared_length(content_length->0) > max_body_size {
        Some(413)
    } else {
        None
    }
}

/// The checks a request passes before any search: the method, then the
/// declared body length. Returns the reply that stops it, if any.
pub fn screen_request(method: &str, content_length: Option<&[u8]>, max_body_size: u64) -> (r: Option<Reply>)
    ensures
        match gate_status(method@, bytes_view(content_length), max_body_size) {
            None => r is None,
            Some(s) => r matches Some(rep) && rep.status == s && headers_view(rep.headers@) == text_headers()
                && body_view(rep.body) == Some(
                if s == 405 {
                    "Method Not Allowed"@
                } else {
                    "Payload Too Large"@
                },
            ),
        },
{
    if !(crate::text::str_eq(method, "GET") || crate::text::str_eq(method, "HEAD")) {
        return Some(text_reply(405, "Method Not Allowed"));
    }
    match content_length {
        Some(v) => {
            let len = content_length_of(v);
            if len > max_body_size {
                return Some(text_reply(413, "Payload Too Large"));
            }
        },
        None => {},
    }
    None
}

/// A GET or HEAD request whose `Content-Length` exceeds the limit is refused
/// with 413, whatever it asks for.
pub proof fn oversized_body_is_refused(method: Seq<char>, value: Seq<u8>, max_body_size: u64)
    requires
        method == "GET"@ || method == "HEAD"@,
        declared_length(value) > max_body_size,
    ensures
        gate_status(method, Some(value), max_body_size) == Some(413u16),
{
}

} // verus!
