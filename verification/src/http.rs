//! HTTP/1.1 framing of the API: request routing, header lookups, the bounded
//! request reader and the exact response bytes.
use vstd::prelude::*;
use vstd::string::StringSliceAdditionalSpecFns;
use vstd::utf8::valid_utf8;

use crate::classifier::{first_key_from, is_json_space, scan_to, skip_spaces, utf8_str};
use crate::index::Decision;

verus! {

/// Largest request the reader accumulates before handing it over.
pub const MAX_REQUEST_BYTES: usize = 1_048_576;

/// The bytes that end an HTTP header block.
pub open spec fn header_terminator() -> Seq<u8> {
    seq![13u8, 10u8, 13u8, 10u8]
}

/// Position of the first `\r\n\r\n` in `buffer`.
pub fn find_header_end(buffer: &[u8]) -> (r: Option<usize>)
    ensures
        r is Some <==> first_key_from(buffer@, header_terminator(), 0) is Some,
        r matches Some(p) ==> first_key_from(buffer@, header_terminator(), 0) == Some(p as int)
            && p + 4 <= buffer@.len(),
{
    let terminator: [u8; 4] = [13u8, 10u8, 13u8, 10u8];
    proof {
        assert(terminator@ =~= header_terminator());
    }
    crate::classifier::find_key_from(buffer, terminator.as_slice(), 0)
}

/// Drops a carriage return that ends `s`.
pub open spec fn strip_cr(s: Seq<u8>) -> Seq<u8> {
    if s.len() > 0 && s.last() == 13u8 { s.drop_last() } else { s }
}

/// The line of `text` that starts at `pos`, as `str::lines` yields it: up to the next line
/// feed, without it and without a carriage return just before it.
pub open spec fn line_at(text: Seq<u8>, pos: int) -> Seq<u8> {
    let e = scan_to(text, pos, 10u8);
    if e < text.len() { strip_cr(text.subrange(pos, e)) } else { text.subrange(pos, text.len() as int) }
}

/// Where the line after the one at `pos` starts.
pub open spec fn next_line(text: Seq<u8>, pos: int) -> int {
    let e = scan_to(text, pos, 10u8);
    if e < text.len() { e + 1 } else { text.len() as int }
}

/// End of the word that starts at `i`: the next ASCII whitespace, or the end.
pub open spec fn word_end(s: Seq<u8>, i: int) -> int
    decreases s.len() - i,
{
    if 0 <= i < s.len() && !is_json_space(s[i]) { word_end(s, i + 1) } else { i }
}

/// The first and second words of `line`, as `split_ascii_whitespace` yields them (empty
/// when missing).
pub open spec fn request_words(line: Seq<u8>) -> (Seq<u8>, Seq<u8>) {
    let s0 = skip_spaces(line, 0);
    let e0 = word_end(line, s0);
    let s1 = skip_spaces(line, e0);
    let e1 = word_end(line, s1);
    (line.subrange(s0, e0), line.subrange(s1, e1))
}

/// What a request asks for.
#[derive(Debug, Clone, Copy, PartialEq, Eq, Structural)]
pub enum HttpRoute {
    /// No complete header block, a header that is not UTF-8, or no request line.
    BadRequest,
    /// `GET /ready`.
    Ready,
    /// `POST /fraud-score`; the body starts at `body_start`.
    FraudScore { body_start: usize },
    /// Any other method and path.
    NotFound,
}

pub open spec fn route_of(request: Seq<u8>) -> HttpRoute {
    match first_key_from(request, header_terminator(), 0) {
        None => HttpRoute::BadRequest,
        Some(header_end) => {
            let header = request.subrange(0, header_end);
            if !valid_utf8(header) || header.len() == 0 {
                HttpRoute::BadRequest
            } else {
                let (method, path) = request_words(line_at(header, 0));
                if method == "GET".spec_bytes() && path == "/ready".spec_bytes() {
                    HttpRoute::Ready
                } else if method == "POST".spec_bytes() && path == "/fraud-score".spec_bytes() {
                    HttpRoute::FraudScore { body_start: (header_end + 4) as usize }
                } else {
                    HttpRoute::NotFound
                }
            }
        },
    }
}

pub proof fn lemma_scan_to_stops(s: Seq<u8>, c: int, b: u8)
    requires
        0 <= c <= s.len(),
    ensures
        c <= scan_to(s, c, b) <= s.len(),
        scan_to(s, c, b) < s.len() ==> s[scan_to(s, c, b)] == b,
        forall|k: int| c <= k < scan_to(s, c, b) ==> s[k] != b,
    decreases s.len() - c,
{
    if 0 <= c < s.len() && s[c] != b {
        lemma_scan_to_stops(s, c + 1, b);
    }
}

/// End of the line of `text` that starts at `pos`, and where the next one starts.
fn line_bounds(text: &[u8], pos: usize) -> (r: (usize, usize))
    requires
        pos <= text@.len(),
    ensures
        text@.subrange(pos as int, r.0 as int) == line_at(text@, pos as int),
        r.1 == next_line(text@, pos as int),
        pos <= r.0 <= r.1 <= text@.len(),
        pos < text@.len() ==> pos < r.1,
{
    let mut e = pos;
    proof {
        lemma_scan_to_stops(text@, pos as int, 10u8);
    }
    while e < text.len() && text[e] != 10u8
        invariant
            pos <= e <= text@.len(),
            scan_to(text@, e as int, 10u8) == scan_to(text@, pos as int, 10u8),
        decreases text@.len() - e,
    {
        e = e + 1;
    }
    if e < text.len() {
        if e > pos && text[e - 1] == 13u8 {
            proof {
                assert(text@.subrange(pos as int, e - 1) =~= text@.subrange(pos as int, e as int).drop_last());
            }
            (e - 1, e + 1)
        } else {
            (e, e + 1)
        }
    } else {
        (e, e)
    }
}

fn word_end_at(s: &[u8], i: usize) -> (r: usize)
    requires
        i <= s@.len(),
    ensures
        r == word_end(s@, i as int),
        i <= r <= s@.len(),
{
    let ghost i0 = i as int;
    let mut j = i;
    while j < s.len() && !(s[j] == 32u8 || s[j] == 9u8 || s[j] == 10u8 || s[j] == 12u8 || s[j] == 13u8)
        invariant
            i0 <= j <= s@.len(),
            word_end(s@, j as int) == word_end(s@, i0),
        decreases s@.len() - j,
    {
        j = j + 1;
    }
    j
}

fn skip_ascii_whitespace(s: &[u8], i: usize) -> (r: usize)
    requires
        i <= s@.len(),
    ensures
        r == skip_spaces(s@, i as int),
        i <= r <= s@.len(),
{
    let ghost i0 = i as int;
    let mut j = i;
    while j < s.len() && (s[j] == 32u8 || s[j] == 9u8 || s[j] == 10u8 || s[j] == 12u8 || s[j] == 13u8)
        invariant
            i0 <= j <= s@.len(),
            skip_spaces(s@, j as int) == skip_spaces(s@, i0),
        decreases s@.len() - j,
    {
        j = j + 1;
    }
    j
}

/// Byte-wise equality.
pub(crate) fn bytes_equal(a: &[u8], b: &[u8]) -> (r: bool)
    ensures
        r == (a@ == b@),
{
    if a.len() != b.len() {
        return false;
    }
    let mut i: usize = 0;
    while i < a.len()
        invariant
            i <= a@.len(),
            a@.len() == b@.len(),
            forall|k: int| 0 <= k < i ==> a@[k] == b@[k],
        decreases a@.len() - i,
    {
        if a[i] != b[i] {
            return false;
        }
        i = i + 1;
    }
    proof {
        assert(a@ =~= b@);
    }
    true
}

/// Reads the request line of `request` to decide what it asks for.
pub fn route_request(request: &[u8]) -> (r: HttpRoute)
    ensures
        r == route_of(request@),
{
    let header_end = match find_header_end(request) {
        Some(h) => h,
        None => { return HttpRoute::BadRequest; }
    };
    let request_len = request.len();
    proof {
        assert(header_end + 4 <= request_len);
    }
    let header = &request[0..header_end];
    proof {
        assert(header@ == request@.subrange(0, header_end as int));
    }
    if utf8_str(header).is_none() {
        return HttpRoute::BadRequest;
    }
    if header.len() == 0 {
        return HttpRoute::BadRequest;
    }
    let (line_end, _) = line_bounds(header, 0);
    let line = &header[0..line_end];
    let s0 = skip_ascii_whitespace(line, 0);
    let e0 = word_end_at(line, s0);
    let s1 = skip_ascii_whitespace(line, e0);
    let e1 = word_end_at(line, s1);
    let method = &line[s0..e0];
    let path = &line[s1..e1];
    proof {
        assert(line@ == line_at(header@, 0));
        assert(method@ == line@.subrange(s0 as int, e0 as int));
        assert(path@ == line@.subrange(s1 as int, e1 as int));
    }
    if bytes_equal(method, "GET".as_bytes()) && bytes_equal(path, "/ready".as_bytes()) {
        HttpRoute::Ready
    } else if bytes_equal(method, "POST".as_bytes()) && bytes_equal(path, "/fraud-score".as_bytes()) {
        HttpRoute::FraudScore { body_start: header_end + 4 }
    } else {
        HttpRoute::NotFound
    }
}

/// Decimal digits of `n`.
pub open spec fn decimal_text(n: nat) -> Seq<u8>
    decreases n,
{
    if n < 10 {
        seq![(48 + n) as u8]
    } else {
        decimal_text(n / 10).push((48 + n % 10) as u8)
    }
}

/// Appends the decimal digits of `n`.
fn push_decimal(out: &mut Vec<u8>, n: usize)
    ensures
        final(out)@ == old(out)@ + decimal_text(n as nat),
    decreases n,
{
    if n >= 10 {
        push_decimal(out, n / 10);
    }
    out.push((48 + n % 10) as u8);
    proof {
        if n >= 10 {
            assert(decimal_text(n as nat) == decimal_text((n / 10) as nat).push((48 + n % 10) as u8));
        }
    }
}

/// The bytes of a response with the given status line text and JSON body.
pub open spec fn response_bytes(status: Seq<u8>, body: Seq<u8>) -> Seq<u8> {
    "HTTP/1.1 ".spec_bytes() + status + "\r\nContent-Type: application/json\r\nContent-Length: ".spec_bytes()
        + decimal_text(body.len()) + "\r\nConnection: keep-alive\r\n\r\n".spec_bytes() + body
}

/// A keep-alive JSON response with the given status.
fn status_response(status: &str, body: &[u8]) -> (r: Vec<u8>)
    ensures
        r@ == response_bytes(status.spec_bytes(), body@),
{
    let mut response: Vec<u8> = Vec::new();
    response.extend_from_slice("HTTP/1.1 ".as_bytes());
    response.extend_from_slice(status.as_bytes());
    response.extend_from_slice("\r\nContent-Type: application/json\r\nContent-Length: ".as_bytes());
    push_decimal(&mut response, body.len());
    response.extend_from_slice("\r\nConnection: keep-alive\r\n\r\n".as_bytes());
    response.extend_from_slice(body);
    response
}

/// The JSON body answering a decision with `fraud_count` fraudulent neighbours (counts
/// above five read as five).
pub open spec fn decision_body(fraud_count: u8) -> Seq<u8> {
    if fraud_count == 0 {
        "{\"approved\":true,\"fraud_score\":0.0}".spec_bytes()
    } else if fraud_count == 1 {
        "{\"approved\":true,\"fraud_score\":0.2}".spec_bytes()
    } else if fraud_count == 2 {
        "{\"approved\":true,\"fraud_score\":0.4}".spec_bytes()
    } else if fraud_count == 3 {
        "{\"approved\":false,\"fraud_score\":0.6}".spec_bytes()
    } else if fraud_count == 4 {
        "{\"approved\":false,\"fraud_score\":0.8}".spec_bytes()
    } else {
        "{\"approved\":false,\"fraud_score\":1.0}".spec_bytes()
    }
}

/// The `200 OK` response carrying a decision.
fn decision_response(decision: Decision) -> (r: Vec<u8>)
    ensures
        r@ == response_bytes("200 OK".spec_bytes(), decision_body(decision.fraud_count)),
{
    let count = if decision.fraud_count < 5 { decision.fraud_count } else { 5 };
    let body: &str = match count {
        0 => "{\"approved\":true,\"fraud_score\":0.0}",
        1 => "{\"approved\":true,\"fraud_score\":0.2}",
        2 => "{\"approved\":true,\"fraud_score\":0.4}",
        3 => "{\"approved\":false,\"fraud_score\":0.6}",
        4 => "{\"approved\":false,\"fraud_score\":0.8}",
        _ => "{\"approved\":false,\"fraud_score\":1.0}",
    };
    status_response("200 OK", body.as_bytes())
}

/// The response for a routed request; `decision` is the scoring outcome, used only for
/// `POST /fraud-score`.
pub open spec fn response_for(route: HttpRoute, decision: Decision) -> Seq<u8> {
    match route {
        HttpRoute::BadRequest => response_bytes("400 Bad Request".spec_bytes(), "{}".spec_bytes()),
        HttpRoute::Ready => response_bytes("200 OK".spec_bytes(), "{}".spec_bytes()),
        HttpRoute::FraudScore { .. } => response_bytes("200 OK".spec_bytes(), decision_body(decision.fraud_count)),
        HttpRoute::NotFound => response_bytes("404 Not Found".spec_bytes(), "{}".spec_bytes()),
    }
}

/// The full response to a routed request.
pub fn http_response(route: HttpRoute, decision: Decision) -> (r: Vec<u8>)
    ensures
        r@ == response_for(route, decision),
{
    match route {
        HttpRoute::BadRequest => status_response("400 Bad Request", "{}".as_bytes()),
        HttpRoute::Ready => status_response("200 OK", "{}".as_bytes()),
        HttpRoute::FraudScore { .. } => decision_response(decision),
        HttpRoute::NotFound => status_response("404 Not Found", "{}".as_bytes()),
    }
}

/// ASCII lower case of a byte.
pub open spec fn ascii_lower(b: u8) -> u8 {
    if 65 <= b <= 90 { (b + 32) as u8 } else { b }
}

/// Equality ignoring ASCII case, as `eq_ignore_ascii_case` compares.
pub open spec fn ascii_eq_ignore_case(a: Seq<u8>, b: Seq<u8>) -> bool {
    a.len() == b.len() && forall|k: int| 0 <= k < a.len() ==> #[trigger] ascii_lower(a[k]) == ascii_lower(b[k])
}

fn eq_ignore_ascii_case(a: &[u8], b: &[u8]) -> (r: bool)
    ensures
        r == ascii_eq_ignore_case(a@, b@),
{
    if a.len() != b.len() {
        return false;
    }
    let mut i: usize = 0;
    while i < a.len()
        invariant
            i <= a@.len(),
            a@.len() == b@.len(),
            forall|k: int| 0 <= k < i ==> #[trigger] ascii_lower(a@[k]) == ascii_lower(b@[k]),
        decreases a@.len() - i,
    {
        let x = if 65 <= a[i] && a[i] <= 90 { a[i] + 32 } else { a[i] };
        let y = if 65 <= b[i] && b[i] <= 90 { b[i] + 32 } else { b[i] };
        if x != y {
            proof {
                assert(ascii_lower(a@[i as int]) != ascii_lower(b@[i as int]));
            }
            return false;
        }
        i = i + 1;
    }
    true
}

/// Unicode `White_Space` characters, which `str::trim` removes.
pub open spec fn is_white_space(c: char) -> bool {
    let u = c as u32;
    ||| 9 <= u <= 13
    ||| u == 32 || u == 0x85 || u == 0xA0 || u == 0x1680
    ||| 0x2000 <= u <= 0x200A
    ||| u == 0x2028 || u == 0x2029 || u == 0x202F || u == 0x205F || u == 0x3000
}

pub open spec fn leading_white_end(cs: Seq<char>, i: int) -> int
    decreases cs.len() - i,
{
    if 0 <= i < cs.len() && is_white_space(cs[i]) { leading_white_end(cs, i + 1) } else { i }
}

pub open spec fn trailing_white_start(cs: Seq<char>, j: int, lo: int) -> int
    decreases j - lo,
{
    if lo < j && is_white_space(cs[j - 1]) { trailing_white_start(cs, j - 1, lo) } else { j }
}

/// `cs` without its leading and trailing white space.
pub open spec fn trim_chars(cs: Seq<char>) -> Seq<char> {
    let i = leading_white_end(cs, 0);
    cs.subrange(i, trailing_white_start(cs, cs.len() as int, i))
}

/// `str::trim`: the text without leading and trailing Unicode white space.
#[verifier::external_body]
fn trim_text(text: &str) -> (r: &str)
    ensures
        r@ == trim_chars(text@),
{
    text.trim()
}

pub open spec fn is_digit_char(c: char) -> bool {
    '0' <= c <= '9'
}

/// Decimal value of the first `n` characters (digits) of `cs`.
pub open spec fn char_decimal(cs: Seq<char>, n: nat) -> int
    decreases n,
{
    if n == 0 { 0 } else { char_decimal(cs, (n - 1) as nat) * 10 + (cs[n - 1] as u32 - 48) }
}

/// The digits that `str::parse::<usize>` reads: the text without a leading `+`.
pub open spec fn unsigned_digits(cs: Seq<char>) -> Seq<char> {
    if cs.len() > 1 && cs[0] == '+' { cs.drop_first() } else { cs }
}

pub open spec fn all_digits(cs: Seq<char>) -> bool {
    forall|k: int| 0 <= k < cs.len() ==> #[trigger] is_digit_char(cs[k])
}

/// `str::parse::<usize>`: an optional `+`, then one or more ASCII digits, whose value
/// fits in a `usize`.
pub open spec fn usize_text(cs: Seq<char>) -> Option<usize> {
    let digits = unsigned_digits(cs);
    if digits.len() == 0 || !all_digits(digits) {
        None
    } else if char_decimal(digits, digits.len()) > usize::MAX {
        None
    } else {
        Some(char_decimal(digits, digits.len()) as usize)
    }
}

proof fn lemma_char_decimal_monotone(cs: Seq<char>, a: nat, b: nat)
    requires
        a <= b <= cs.len(),
        all_digits(cs),
    ensures
        0 <= char_decimal(cs, a) <= char_decimal(cs, b),
    decreases b,
{
    if b > 0 {
        let p = (b - 1) as nat;
        if a < b {
            lemma_char_decimal_monotone(cs, a, p);
        } else {
            lemma_char_decimal_monotone(cs, p, p);
        }
        assert(is_digit_char(cs[b - 1]));
        assert(char_decimal(cs, b) == char_decimal(cs, p) * 10 + (cs[b - 1] as u32 - 48));
    }
}

/// Parses a decimal `usize` the way `str::parse` does.
fn parse_usize_text(text: &str) -> (r: Option<usize>)
    ensures
        r == usize_text(text@),
{
    broadcast use vstd::string::is_ascii_spec_bytes;
    let ghost cs = text@;
    if !text.is_ascii() {
        proof {
            assert(!vstd::utf8::is_ascii_chars(cs));
            assert(exists|k: int| 0 <= k < cs.len() && !('\0' <= #[trigger] cs[k] <= '\u{7f}'));
            let k = choose|k: int| 0 <= k < cs.len() && !('\0' <= #[trigger] cs[k] <= '\u{7f}');
            if cs.len() > 1 && cs[0] == '+' {
                assert(k >= 1);
                assert(!is_digit_char(cs[k]));
                assert(unsigned_digits(cs)[k - 1] == cs[k]);
                assert(!is_digit_char(unsigned_digits(cs)[k - 1]));
            } else {
                assert(!is_digit_char(unsigned_digits(cs)[k]));
            }
            assert(!all_digits(unsigned_digits(cs)));
        }
        return None;
    }
    let bytes = text.as_bytes();
    proof {
        assert(bytes@.len() == cs.len());
        assert forall|k: int| 0 <= k < cs.len() implies #[trigger] bytes@[k] as int == cs[k] as int by {
            assert('\0' <= cs[k] <= '\u{7f}');
            assert(bytes@[k] == cs[k] as u8);
        }
    }
    let start: usize = if bytes.len() > 1 && bytes[0] == 43u8 { 1 } else { 0 };
    let ghost digits = unsigned_digits(cs);
    proof {
        assert(digits.len() == cs.len() - start);
        assert forall|k: int| 0 <= k < digits.len() implies #[trigger] digits[k] == cs[k + start] by {}
    }
    if start == bytes.len() {
        return None;
    }
    let mut i = start;
    let mut value: usize = 0;
    while i < bytes.len()
        invariant
            start <= i <= bytes@.len(),
            cs == text@,
            digits == unsigned_digits(cs),
            bytes@.len() == cs.len(),
            digits.len() == cs.len() - start,
            forall|k: int| 0 <= k < digits.len() ==> #[trigger] digits[k] == cs[k + start],
            forall|k: int| 0 <= k < cs.len() ==> #[trigger] bytes@[k] as int == cs[k] as int,
            forall|k: int| 0 <= k < i - start ==> #[trigger] is_digit_char(digits[k]),
            value == char_decimal(digits, (i - start) as nat),
        decreases bytes@.len() - i,
    {
        let b = bytes[i];
        if b < 48 || b > 57 {
            proof {
                assert(bytes@[i as int] as int == cs[i as int] as int);
                assert(!is_digit_char(digits[i - start]));
                assert(!all_digits(digits));
            }
            return None;
        }
        proof {
            assert(is_digit_char(digits[i - start]));
            assert(char_decimal(digits, (i + 1 - start) as nat)
                == char_decimal(digits, (i - start) as nat) * 10 + (digits[i - start] as u32 - 48));
        }
        let next = match value.checked_mul(10) {
            Some(v) => v.checked_add((b - 48) as usize),
            None => None,
        };
        match next {
            Some(v) => { value = v; },
            None => {
                proof {
                    let j: int = i - start + 1;
                    assert(char_decimal(digits, j as nat) > usize::MAX);
                    if all_digits(digits) {
                        lemma_char_decimal_monotone(digits, j as nat, digits.len());
                    }
                }
                return None;
            }
        }
        i = i + 1;
    }
    Some(value)
}

/// The value of a header, read as `value.trim().parse::<usize>()` reads it.
pub open spec fn header_value_usize(value: Seq<u8>) -> Option<usize> {
    if valid_utf8(value) { usize_text(trim_chars(vstd::utf8::decode_utf8(value))) } else { None }
}

fn header_value(value: &[u8]) -> (r: Option<usize>)
    ensures
        r == header_value_usize(value@),
{
    broadcast use vstd::utf8::encode_utf8_decode_utf8;
    let text = match utf8_str(value) {
        Some(t) => t,
        None => { return None; }
    };
    parse_usize_text(trim_text(text))
}

/// Header block positions are line starts: `Content-Length` from the line at `pos` on.
/// A line without a colon ends the search with no value.
pub open spec fn content_length_from(h: Seq<u8>, pos: int) -> Option<usize>
    decreases h.len() - pos,
{
    if pos < 0 || pos >= h.len() {
        None
    } else {
        let line = line_at(h, pos);
        let ci = scan_to(line, 0, 58u8);
        if ci >= line.len() {
            None
        } else if ascii_eq_ignore_case(line.subrange(0, ci), "content-length".spec_bytes()) {
            header_value_usize(line.subrange(ci + 1, line.len() as int))
        } else {
            proof {
                lemma_scan_to_stops(h, pos, 10u8);
            }
            content_length_from(h, next_line(h, pos))
        }
    }
}

/// The `Content-Length` of a header block, looked up in the lines after the request line.
pub open spec fn content_length_of(header: Seq<u8>) -> Option<usize> {
    if valid_utf8(header) { content_length_from(header, next_line(header, 0)) } else { None }
}

fn colon_index(line: &[u8]) -> (r: usize)
    ensures
        r == scan_to(line@, 0, 58u8),
        r <= line@.len(),
{
    let mut i: usize = 0;
    proof {
        lemma_scan_to_stops(line@, 0, 58u8);
    }
    while i < line.len() && line[i] != 58u8
        invariant
            i <= line@.len(),
            scan_to(line@, i as int, 58u8) == scan_to(line@, 0, 58u8),
        decreases line@.len() - i,
    {
        i = i + 1;
    }
    i
}

/// The `Content-Length` header's value.
fn parse_content_length(header: &[u8]) -> (r: Option<usize>)
    ensures
        r == content_length_of(header@),
{
    if utf8_str(header).is_none() {
        return None;
    }
    let (_, mut pos) = line_bounds(header, 0);
    let name = "content-length".as_bytes();
    while pos < header.len()
        invariant
            pos <= header@.len(),
            name@ == "content-length".spec_bytes(),
            valid_utf8(header@),
            content_length_of(header@) == content_length_from(header@, pos as int),
        decreases header@.len() - pos,
    {
        let (line_end, next) = line_bounds(header, pos);
        let line = &header[pos..line_end];
        let ci = colon_index(line);
        if ci >= line.len() {
            return None;
        }
        proof {
            assert(line@ == line_at(header@, pos as int));
            assert(line@.subrange(0, ci as int) == header@.subrange(pos as int, pos + ci));
        }
        let line_name = &line[0..ci];
        if eq_ignore_ascii_case(line_name, name) {
            let value = &line[ci + 1..line.len()];
            return header_value(value);
        }
        pos = next;
    }
    None
}

/// `value.trim()` is `close`, ignoring ASCII case.
pub open spec fn header_value_is_close(value: Seq<u8>) -> bool {
    valid_utf8(value) && ascii_eq_ignore_case(
        vstd::utf8::encode_utf8(trim_chars(vstd::utf8::decode_utf8(value))),
        "close".spec_bytes(),
    )
}

/// Some line from `pos` on is a `Connection: close` header.
pub open spec fn connection_close_from(h: Seq<u8>, pos: int) -> bool
    decreases h.len() - pos,
{
    if pos < 0 || pos >= h.len() {
        false
    } else {
        let line = line_at(h, pos);
        let ci = scan_to(line, 0, 58u8);
        if ci < line.len() && ascii_eq_ignore_case(line.subrange(0, ci), "connection".spec_bytes())
            && header_value_is_close(line.subrange(ci + 1, line.len() as int)) {
            true
        } else {
            proof {
                lemma_scan_to_stops(h, pos, 10u8);
            }
            connection_close_from(h, next_line(h, pos))
        }
    }
}

/// The client asked to close the connection, or the request cannot be framed.
pub open spec fn wants_close(request: Seq<u8>) -> bool {
    match first_key_from(request, header_terminator(), 0) {
        None => true,
        Some(header_end) => {
            let header = request.subrange(0, header_end);
            !valid_utf8(header) || connection_close_from(header, next_line(header, 0))
        },
    }
}

fn value_is_close(value: &[u8]) -> (r: bool)
    ensures
        r == header_value_is_close(value@),
{
    broadcast use vstd::utf8::encode_utf8_decode_utf8;
    let text = match utf8_str(value) {
        Some(t) => t,
        None => { return false; }
    };
    let trimmed = trim_text(text);
    eq_ignore_ascii_case(trimmed.as_bytes(), "close".as_bytes())
}

/// The connection is to be closed after answering `request`: it carries a
/// `Connection: close` header, or its header block is incomplete or not UTF-8.
pub fn request_has_connection_close(request: &[u8]) -> (r: bool)
    ensures
        r == wants_close(request@),
{
    let header_end = match find_header_end(request) {
        Some(h) => h,
        None => { return true; }
    };
    let header = &request[0..header_end];
    proof {
        assert(header@ == request@.subrange(0, header_end as int));
    }
    if utf8_str(header).is_none() {
        return true;
    }
    let (_, mut pos) = line_bounds(header, 0);
    let name = "connection".as_bytes();
    while pos < header.len()
        invariant
            pos <= header@.len(),
            name@ == "connection".spec_bytes(),
            valid_utf8(header@),
            header@ == request@.subrange(0, header_end as int),
            first_key_from(request@, header_terminator(), 0) == Some(header_end as int),
            connection_close_from(header@, next_line(header@, 0)) == connection_close_from(header@, pos as int),
        decreases header@.len() - pos,
    {
        let (line_end, next) = line_bounds(header, pos);
        let line = &header[pos..line_end];
        let ci = colon_index(line);
        proof {
            assert(line@ == line_at(header@, pos as int));
        }
        if ci < line.len() {
            let line_name = &line[0..ci];
            let value = &line[ci + 1..line.len()];
            proof {
                assert(line_name@ == line@.subrange(0, ci as int));
                assert(value@ == line@.subrange(ci + 1, line@.len() as int));
            }
            if eq_ignore_ascii_case(line_name, name) && value_is_close(value) {
                return true;
            }
        }
        pos = next;
    }
    false
}

/// `p` starts one of the lines of `h` after the first: the byte before it is a line feed.
pub open spec fn starts_later_line(h: Seq<u8>, p: int) -> bool {
    0 < p < h.len() && h[p - 1] == 10u8
}

/// The name of a header line, the text before its first colon, if it has a colon.
pub open spec fn header_line_name(line: Seq<u8>) -> Option<Seq<u8>> {
    let ci = scan_to(line, 0, 58u8);
    if ci < line.len() { Some(line.subrange(0, ci)) } else { None }
}

/// The value of a header line, the text after its first colon.
pub open spec fn header_line_value(line: Seq<u8>) -> Seq<u8> {
    line.subrange(scan_to(line, 0, 58u8) + 1, line.len() as int)
}

/// The header line is named `name`, ignoring ASCII case.
pub open spec fn header_line_named(line: Seq<u8>, name: Seq<u8>) -> bool {
    header_line_name(line) matches Some(n) && ascii_eq_ignore_case(n, name)
}

/// The line that follows the one at `pos` starts after it, is the next later line, and
/// comes no later than any later line after `pos`.
proof fn lemma_next_line_start(h: Seq<u8>, pos: int)
    requires
        0 <= pos < h.len(),
    ensures
        pos < next_line(h, pos) <= h.len(),
        next_line(h, pos) < h.len() ==> starts_later_line(h, next_line(h, pos)),
        forall|p: int| #[trigger] starts_later_line(h, p) && pos < p ==> next_line(h, pos) <= p,
{
    lemma_scan_to_stops(h, pos, 10u8);
    assert forall|p: int| #[trigger] starts_later_line(h, p) && pos < p implies next_line(h, pos) <= p by {
        if scan_to(h, pos, 10u8) > p - 1 {
            assert(h[p - 1] != 10u8);
        }
    }
}

proof fn lemma_content_length_reaches(h: Seq<u8>, pos: int, p: int)
    requires
        0 <= pos <= p,
        starts_later_line(h, p),
        pos == p || starts_later_line(h, pos),
        header_line_named(line_at(h, p), "content-length".spec_bytes()),
        forall|q: int| #[trigger] starts_later_line(h, q) && q < p ==> header_line_name(line_at(h, q)) is Some
            && !header_line_named(line_at(h, q), "content-length".spec_bytes()),
    ensures
        content_length_from(h, pos) == header_value_usize(header_line_value(line_at(h, p))),
    decreases p - pos,
{
    if pos < p {
        lemma_next_line_start(h, pos);
        lemma_content_length_reaches(h, next_line(h, pos), p);
    }
}

proof fn lemma_content_length_absent(h: Seq<u8>, pos: int)
    requires
        0 <= pos,
        pos >= h.len() || starts_later_line(h, pos),
        forall|q: int| #[trigger] starts_later_line(h, q) ==> !header_line_named(line_at(h, q), "content-length".spec_bytes()),
    ensures
        content_length_from(h, pos) is None,
    decreases h.len() - pos,
{
    if pos < h.len() {
        lemma_next_line_start(h, pos);
        lemma_content_length_absent(h, next_line(h, pos));
    }
}

/// The first line after the request line has no earlier later line.
proof fn lemma_first_later_line(h: Seq<u8>)
    ensures
        next_line(h, 0) >= h.len() || starts_later_line(h, next_line(h, 0)),
        forall|p: int| #[trigger] starts_later_line(h, p) ==> next_line(h, 0) <= p,
{
    if h.len() > 0 {
        lemma_next_line_start(h, 0);
    } else {
        lemma_scan_to_stops(h, 0, 10u8);
    }
}

/// The `Content-Length` of a UTF-8 header block is read from the first line after the
/// request line that is named `content-length` (ignoring ASCII case), wherever it stands,
/// provided every line before it is a header line (has a colon) with another name.
pub proof fn law_content_length_is_first_named_line(h: Seq<u8>, p: int)
    requires
        valid_utf8(h),
        starts_later_line(h, p),
        header_line_named(line_at(h, p), "content-length".spec_bytes()),
        forall|q: int| #[trigger] starts_later_line(h, q) && q < p ==> header_line_name(line_at(h, q)) is Some
            && !header_line_named(line_at(h, q), "content-length".spec_bytes()),
    ensures
        content_length_of(h) == header_value_usize(header_line_value(line_at(h, p))),
{
    lemma_first_later_line(h);
    lemma_content_length_reaches(h, next_line(h, 0), p);
}

/// A header block none of whose lines after the request line is named `content-length`
/// announces no `Content-Length`.
pub proof fn law_content_length_absent_without_its_line(h: Seq<u8>)
    requires
        forall|q: int| #[trigger] starts_later_line(h, q) ==> !header_line_named(line_at(h, q), "content-length".spec_bytes()),
    ensures
        content_length_of(h) is None,
{
    lemma_first_later_line(h);
    if valid_utf8(h) {
        lemma_content_length_absent(h, next_line(h, 0));
    }
}

/// The line is a `Connection: close` header: named `connection` and with the value
/// `close`, both ignoring ASCII case, the value trimmed.
pub open spec fn is_close_line(line: Seq<u8>) -> bool {
    header_line_named(line, "connection".spec_bytes()) && header_value_is_close(header_line_value(line))
}

proof fn lemma_close_reaches(h: Seq<u8>, pos: int, p: int)
    requires
        0 <= pos <= p,
        starts_later_line(h, p),
        pos == p || starts_later_line(h, pos),
        is_close_line(line_at(h, p)),
    ensures
        connection_close_from(h, pos),
    decreases p - pos,
{
    if pos < p {
        lemma_next_line_start(h, pos);
        if !connection_close_from(h, pos) {
            lemma_close_reaches(h, next_line(h, pos), p);
        }
    }
}

proof fn lemma_close_absent(h: Seq<u8>, pos: int)
    requires
        0 <= pos,
        pos >= h.len() || starts_later_line(h, pos),
        forall|q: int| #[trigger] starts_later_line(h, q) ==> !is_close_line(line_at(h, q)),
    ensures
        !connection_close_from(h, pos),
    decreases h.len() - pos,
{
    if pos < h.len() {
        lemma_next_line_start(h, pos);
        lemma_close_absent(h, next_line(h, pos));
    }
}

/// A request whose complete UTF-8 header block has a `Connection: close` line anywhere
/// after the request line asks to close the connection, whatever lines come before it.
pub proof fn law_connection_close_on_any_line(request: Seq<u8>, header_end: int, p: int)
    requires
        first_key_from(request, header_terminator(), 0) == Some(header_end),
        starts_later_line(request.subrange(0, header_end), p),
        is_close_line(line_at(request.subrange(0, header_end), p)),
    ensures
        wants_close(request),
{
    let h = request.subrange(0, header_end);
    if valid_utf8(h) {
        lemma_first_later_line(h);
        lemma_close_reaches(h, next_line(h, 0), p);
    }
}

/// A request with a complete UTF-8 header block and no `Connection: close` line after
/// the request line keeps the connection open.
pub proof fn law_keep_alive_without_close_line(request: Seq<u8>, header_end: int)
    requires
        first_key_from(request, header_terminator(), 0) == Some(header_end),
        valid_utf8(request.subrange(0, header_end)),
        forall|q: int| #[trigger] starts_later_line(request.subrange(0, header_end), q) ==> !is_close_line(
            line_at(request.subrange(0, header_end), q),
        ),
    ensures
        !wants_close(request),
{
    let h = request.subrange(0, header_end);
    lemma_first_later_line(h);
    lemma_close_absent(h, next_line(h, 0));
}

/// Only `POST /fraud-score` is scored, and only `GET /ready` answers ready: a request
/// routed to either has a complete UTF-8 header block whose request line has that method
/// and path; a complete UTF-8 request line with any other method and path is not found.
pub proof fn law_route_follows_method_and_path(request: Seq<u8>)
    ensures
        route_of(request) is FraudScore ==> (first_key_from(request, header_terminator(), 0) matches Some(he)
            && request_words(line_at(request.subrange(0, he), 0)) == ("POST".spec_bytes(), "/fraud-score".spec_bytes())
            && route_of(request)->body_start == (he + 4) as usize),
        route_of(request) is Ready ==> (first_key_from(request, header_terminator(), 0) matches Some(he)
            && request_words(line_at(request.subrange(0, he), 0)) == ("GET".spec_bytes(), "/ready".spec_bytes())),
        first_key_from(request, header_terminator(), 0) matches Some(he) ==> {
            let header = request.subrange(0, he);
            let (method, path) = request_words(line_at(header, 0));
            valid_utf8(header) && header.len() > 0 && !(method == "POST".spec_bytes() && path
                == "/fraud-score".spec_bytes()) && !(method == "GET".spec_bytes() && path == "/ready".spec_bytes())
                ==> route_of(request) == HttpRoute::NotFound
        },
{
}

/// What the reader needs after a chunk of the request arrived.
#[derive(Debug, Clone, Copy, PartialEq, Eq, Structural)]
pub enum ReadStep {
    /// The request may continue: read more.
    NeedMore,
    /// The request is complete (or too long to wait for): stop reading.
    Complete,
}

/// Accumulates a request read in chunks until its header block and `Content-Length` bytes of
/// body have arrived, or it exceeds `MAX_REQUEST_BYTES`.
pub struct RequestReader {
    buffer: Vec<u8>,
    expected_len: Option<usize>,
}

/// Total request length announced by a buffer that holds a complete header block, wrapped
/// to `usize` as the unchecked addition of a release build does.
pub open spec fn announced_len(buffer: Seq<u8>) -> Option<usize> {
    match first_key_from(buffer, header_terminator(), 0) {
        Some(header_end) => {
            let length = match content_length_of(buffer.subrange(0, header_end)) {
                Some(v) => v as int,
                None => 0int,
            };
            Some(((header_end + 4 + length) % (usize::MAX as int + 1)) as usize)
        },
        None => None,
    }
}

impl RequestReader {
    /// The bytes read so far.
    pub closed spec fn bytes(&self) -> Seq<u8> {
        self.buffer@
    }

    /// The total length the request announced, once its header block is complete.
    pub closed spec fn expected(&self) -> Option<usize> {
        self.expected_len
    }

    pub fn new() -> (r: Self)
        ensures
            r.bytes() == Seq::<u8>::empty(),
            r.expected() is None,
    {
        RequestReader { buffer: Vec::new(), expected_len: None }
    }

    pub fn is_empty(&self) -> (b: bool)
        ensures
            b == (self.bytes().len() == 0),
    {
        self.buffer.len() == 0
    }

    /// The bytes read so far.
    pub fn into_bytes(self) -> (v: Vec<u8>)
        ensures
            v@ == self.bytes(),
    {
        self.buffer
    }

    /// Takes in the next chunk of the request.
    pub fn push(&mut self, chunk: &[u8]) -> (step: ReadStep)
        requires
            old(self).bytes().len() + chunk@.len() <= usize::MAX,
        ensures
            final(self).bytes() == old(self).bytes() + chunk@,
            final(self).expected() == if old(self).expected() is Some || final(self).bytes().len() > MAX_REQUEST_BYTES {
                old(self).expected()
            } else {
                announced_len(final(self).bytes())
            },
            step == if final(self).bytes().len() > MAX_REQUEST_BYTES {
                ReadStep::Complete
            } else {
                match final(self).expected() {
                    Some(e) => if final(self).bytes().len() >= e { ReadStep::Complete } else { ReadStep::NeedMore },
                    None => ReadStep::NeedMore,
                }
            },
    {
        self.buffer.extend_from_slice(chunk);
        if self.buffer.len() > MAX_REQUEST_BYTES {
            return ReadStep::Complete;
        }
        if self.expected_len.is_none() {
            match find_header_end(self.buffer.as_slice()) {
                Some(header_end) => {
                    let header = &self.buffer.as_slice()[0..header_end];
                    let content_length = match parse_content_length(header) {
                        Some(v) => v,
                        None => 0,
                    };
                    let buffer_len = self.buffer.len();
                    proof {
                        assert(header@ == self.buffer@.subrange(0, header_end as int));
                        assert(header_end + 4 <= buffer_len);
                    }
                    self.expected_len = Some((header_end + 4).wrapping_add(content_length));
                },
                None => {},
            }
        }
        match self.expected_len {
            Some(expected) => if self.buffer.len() >= expected { ReadStep::Complete } else { ReadStep::NeedMore },
            None => ReadStep::NeedMore,
        }
    }
}

} // verus!
