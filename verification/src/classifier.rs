//! Byte-level scanning of fraud-score request bodies.
//!
//! The request body is JSON, but the hot path does not parse it: it looks up
//! each quoted key (the first occurrence at or after a given position), skips
//! the colon and the whitespace around it and reads the value's token. The
//! numbers are handed back as byte ranges, for the caller to read as decimals.
use vstd::prelude::*;
use vstd::string::StringSliceAdditionalSpecFns;
use vstd::utf8::valid_utf8;

use crate::index::QuantizedVector;
use crate::time::{
    decimal_value, has_timestamp_layout, layout_in_range, parse_utc_timestamp, parsed_from_layout,
    ParsedTimestamp,
};

verus! {

/// `std::str::from_utf8`: the bytes read as text, when they are valid UTF-8.
#[verifier::external_body]
pub(crate) fn utf8_str(bytes: &[u8]) -> (r: Option<&str>)
    ensures
        r is Some <==> valid_utf8(bytes@),
        r matches Some(s) ==> s.spec_bytes() == bytes@,
{
    std::str::from_utf8(bytes).ok()
}

/// `key` occurs in `body` at position `p`.
pub open spec fn key_at(body: Seq<u8>, key: Seq<u8>, p: int) -> bool {
    0 <= p && p + key.len() <= body.len() && body.subrange(p, p + key.len()) == key
}

/// First position at or after `start` where `key` occurs in `body`.
pub open spec fn first_key_from(body: Seq<u8>, key: Seq<u8>, start: int) -> Option<int>
    decreases body.len() + 1 - start,
{
    if start < 0 || start + key.len() > body.len() {
        None
    } else if key_at(body, key, start) {
        Some(start)
    } else {
        first_key_from(body, key, start + 1)
    }
}

proof fn lemma_first_key_from_bounds(body: Seq<u8>, key: Seq<u8>, start: int)
    ensures
        first_key_from(body, key, start) matches Some(p) ==> start <= p && key_at(body, key, p),
    decreases body.len() + 1 - start,
{
    if !(start < 0 || start + key.len() > body.len()) && !key_at(body, key, start) {
        lemma_first_key_from_bounds(body, key, start + 1);
    }
}

/// Finds the first occurrence of `key` in `body`.
fn find_key(body: &[u8], key: &[u8]) -> (r: Option<usize>)
    requires
        key@.len() > 0,
    ensures
        r is Some <==> first_key_from(body@, key@, 0) is Some,
        r matches Some(p) ==> first_key_from(body@, key@, 0) == Some(p as int) && p + key@.len() <= body@.len(),
{
    find_key_from(body, key, 0)
}

/// Finds the first occurrence of `key` in `body` at or after `start`.
pub(crate) fn find_key_from(body: &[u8], key: &[u8], start: usize) -> (r: Option<usize>)
    requires
        key@.len() > 0,
    ensures
        r is Some <==> first_key_from(body@, key@, start as int) is Some,
        r matches Some(p) ==> first_key_from(body@, key@, start as int) == Some(p as int)
            && p + key@.len() <= body@.len(),
{
    if start > body.len() {
        return None;
    }
    let k = key.len();
    let mut pos = start;
    while pos <= body.len() && body.len() - pos >= k
        invariant
            start <= pos <= body.len(),
            k == key@.len(),
            k > 0,
            first_key_from(body@, key@, start as int) == first_key_from(body@, key@, pos as int),
        decreases body.len() - pos,
    {
        if window_matches(body, key, pos) {
            return Some(pos);
        }
        pos = pos + 1;
    }
    proof {
        assert(pos + k > body@.len());
    }
    None
}

/// `key` occurs in `body` at `pos`.
fn window_matches(body: &[u8], key: &[u8], pos: usize) -> (r: bool)
    requires
        pos + key@.len() <= body@.len(),
    ensures
        r == key_at(body@, key@, pos as int),
{
    let mut i: usize = 0;
    let _ = body.len();
    while i < key.len()
        invariant
            i <= key@.len(),
            pos + key@.len() <= body@.len(),
            body@.len() == body.len(),
            forall|j: int| 0 <= j < i ==> body@[pos + j] == key@[j],
        decreases key@.len() - i,
    {
        if body[pos + i] != key[i] {
            proof {
                assert(body@.subrange(pos as int, pos + key@.len())[i as int] != key@[i as int]);
            }
            return false;
        }
        i = i + 1;
    }
    proof {
        assert(body@.subrange(pos as int, pos + key@.len()) =~= key@);
    }
    true
}

/// ASCII whitespace as `u8::is_ascii_whitespace` defines it: space, tab, line feed,
/// form feed and carriage return.
pub open spec fn is_json_space(b: u8) -> bool {
    b == 32 || b == 9 || b == 10 || b == 12 || b == 13
}

/// First position at or after `c` that is not whitespace (or the end of `body`).
pub open spec fn skip_spaces(body: Seq<u8>, c: int) -> int
    decreases body.len() - c,
{
    if c < body.len() && is_json_space(body[c]) {
        skip_spaces(body, c + 1)
    } else {
        c
    }
}

proof fn lemma_skip_spaces_bounds(body: Seq<u8>, c: int)
    requires
        0 <= c <= body.len(),
    ensures
        c <= skip_spaces(body, c) <= body.len(),
    decreases body.len() - c,
{
    if c < body.len() && is_json_space(body[c]) {
        lemma_skip_spaces_bounds(body, c + 1);
    }
}

/// Where the value after the colon that follows position `c` starts.
pub open spec fn value_start(body: Seq<u8>, c: int) -> Option<int> {
    let colon = skip_spaces(body, c);
    if colon < body.len() && body[colon] == 58u8 {
        Some(skip_spaces(body, colon + 1))
    } else {
        None
    }
}

/// `u8::is_ascii_whitespace`.
fn is_space_byte(b: u8) -> (r: bool)
    ensures
        r == is_json_space(b),
{
    b == 32 || b == 9 || b == 10 || b == 12 || b == 13
}

fn skip_whitespace(body: &[u8], cursor: usize) -> (r: usize)
    requires
        cursor <= body@.len(),
    ensures
        r == skip_spaces(body@, cursor as int),
        r <= body@.len(),
{
    let ghost c0 = cursor as int;
    let mut cursor = cursor;
    while cursor < body.len() && is_space_byte(body[cursor])
        invariant
            cursor <= body@.len(),
            skip_spaces(body@, cursor as int) == skip_spaces(body@, c0),
        decreases body@.len() - cursor,
    {
        cursor = cursor + 1;
    }
    cursor
}

/// Position of the value that follows the colon after `cursor`, whitespace skipped.
fn cursor_after_colon(body: &[u8], cursor: usize) -> (r: Option<usize>)
    requires
        cursor <= body@.len(),
    ensures
        r is Some <==> value_start(body@, cursor as int) is Some,
        r matches Some(v) ==> value_start(body@, cursor as int) == Some(v as int) && v <= body@.len(),
{
    let cursor = skip_whitespace(body, cursor);
    if cursor >= body.len() || body[cursor] != 58u8 {
        return None;
    }
    let v = skip_whitespace(body, cursor + 1);
    Some(v)
}

/// `u8::is_ascii_digit`.
fn is_digit_byte(b: u8) -> (r: bool)
    ensures
        r == (48 <= b <= 57),
{
    48 <= b && b <= 57
}

/// End of the run, from `c`, of bytes that are digits or `.`.
pub open spec fn number_body_end(body: Seq<u8>, c: int) -> int
    decreases body.len() - c,
{
    if 0 <= c < body.len() && ((48 <= body[c] <= 57) || body[c] == 46u8) {
        number_body_end(body, c + 1)
    } else {
        c
    }
}

/// End of a number token starting at `c`: an optional `-`, then digits and dots.
pub open spec fn number_end(body: Seq<u8>, c: int) -> int {
    if c < body.len() && body[c] == 45u8 { number_body_end(body, c + 1) } else { number_body_end(body, c) }
}

/// The bytes of the number after the colon that follows `c`, as a range, if not empty.
pub open spec fn number_token(body: Seq<u8>, c: int) -> Option<(int, int)> {
    match value_start(body, c) {
        Some(v) => if number_end(body, v) == v { None } else { Some((v, number_end(body, v))) },
        None => None,
    }
}

proof fn lemma_number_body_end_bounds(body: Seq<u8>, c: int)
    requires
        0 <= c <= body.len(),
    ensures
        c <= number_body_end(body, c) <= body.len(),
    decreases body.len() - c,
{
    if 0 <= c < body.len() && ((48 <= body[c] <= 57) || body[c] == 46u8) {
        lemma_number_body_end_bounds(body, c + 1);
    }
}

/// A byte range of the request body.
#[derive(Debug, Clone, Copy, PartialEq, Eq, Structural)]
pub struct TokenSpan {
    pub start: usize,
    pub end: usize,
}

pub open spec fn span_of(r: Option<(int, int)>) -> Option<TokenSpan> {
    match r {
        Some((a, b)) => Some(TokenSpan { start: a as usize, end: b as usize }),
        None => None,
    }
}

/// The number token after the colon that follows `cursor`: an optional `-` and a run of
/// digits and dots. Reading it as a decimal is left to the caller.
fn number_after_colon(body: &[u8], cursor: usize) -> (r: Option<TokenSpan>)
    requires
        cursor <= body@.len(),
    ensures
        r == span_of(number_token(body@, cursor as int)),
        r matches Some(t) ==> t.start < t.end <= body@.len(),
{
    let cursor0 = cursor;
    let mut pos = match cursor_after_colon(body, cursor) {
        Some(c) => c,
        None => { return None; }
    };
    let start = pos;
    if pos < body.len() && body[pos] == 45u8 {
        pos = pos + 1;
    }
    let ghost c1 = pos as int;
    proof {
        lemma_number_body_end_bounds(body@, c1);
    }
    while pos < body.len() && (is_digit_byte(body[pos]) || body[pos] == 46u8)
        invariant
            start <= c1 <= pos <= body@.len(),
            number_body_end(body@, pos as int) == number_body_end(body@, c1),
        decreases body@.len() - pos,
    {
        pos = pos + 1;
    }
    proof {
        assert(number_body_end(body@, pos as int) == pos as int);
        assert(value_start(body@, cursor0 as int) == Some(start as int));
    }
    if pos == start {
        return None;
    }
    Some(TokenSpan { start, end: pos })
}

/// The digits after the colon that follows `c` and their value, when there is at least one
/// digit and the value fits in a `u32`.
pub open spec fn u32_value(body: Seq<u8>, c: int) -> Option<u32> {
    match value_start(body, c) {
        Some(v) => {
            let e = digit_run_end(body, v);
            if e == v || decimal_value(body, v, (e - v) as nat) > u32::MAX {
                None
            } else {
                Some(decimal_value(body, v, (e - v) as nat) as u32)
            }
        },
        None => None,
    }
}

/// End of the run of digits from `c`.
pub open spec fn digit_run_end(body: Seq<u8>, c: int) -> int
    decreases body.len() - c,
{
    if 0 <= c < body.len() && 48 <= body[c] <= 57 { digit_run_end(body, c + 1) } else { c }
}

proof fn lemma_digit_run(body: Seq<u8>, c: int, k: int)
    requires
        0 <= c <= k <= body.len(),
        forall|j: int| c <= j < k ==> 48 <= #[trigger] body[j] <= 57,
    ensures
        digit_run_end(body, c) == digit_run_end(body, k),
    decreases k - c,
{
    if c < k {
        lemma_digit_run(body, c + 1, k);
    }
}

proof fn lemma_decimal_monotone(body: Seq<u8>, c: int, a: nat, b: nat)
    requires
        a <= b,
        forall|j: int| c <= j < c + b ==> 48 <= #[trigger] body[j] <= 57,
    ensures
        decimal_value(body, c, a) <= decimal_value(body, c, b),
        decimal_value(body, c, a) >= 0,
    decreases b,
{
    if a < b {
        lemma_decimal_monotone(body, c, a, (b - 1) as nat);
    } else if a > 0 {
        lemma_decimal_monotone(body, c, (a - 1) as nat, (a - 1) as nat);
    }
}

/// The unsigned integer after the colon that follows `cursor`; `None` when there is no
/// digit or the value overflows `u32`.
fn parse_u32_after_colon(body: &[u8], cursor: usize) -> (r: Option<u32>)
    requires
        cursor <= body@.len(),
    ensures
        r == u32_value(body@, cursor as int),
{
    let ghost cursor0 = cursor as int;
    let mut pos = match cursor_after_colon(body, cursor) {
        Some(c) => c,
        None => { return None; }
    };
    let start = pos;
    let mut value: u32 = 0;
    while pos < body.len() && is_digit_byte(body[pos])
        invariant
            start <= pos <= body@.len(),
            value_start(body@, cursor0) == Some(start as int),
            cursor0 == cursor as int,
            forall|j: int| start <= j < pos ==> 48 <= #[trigger] body@[j] <= 57,
            value == decimal_value(body@, start as int, (pos - start) as nat),
        decreases body@.len() - pos,
    {
        let digit = (body[pos] - 48u8) as u32;
        proof {
            assert(decimal_value(body@, start as int, (pos + 1 - start) as nat)
                == decimal_value(body@, start as int, (pos - start) as nat) * 10 + (body@[pos as int] - 48));
        }
        let next = match value.checked_mul(10) {
            Some(v) => match v.checked_add(digit) {
                Some(w) => w,
                None => {
                    proof {
                        lemma_u32_overflow(body@, start as int, pos as int);
                    }
                    return None;
                }
            },
            None => {
                proof {
                    lemma_u32_overflow(body@, start as int, pos as int);
                }
                return None;
            }
        };
        value = next;
        pos = pos + 1;
    }
    proof {
        lemma_digit_run(body@, start as int, pos as int);
    }
    if pos == start {
        None
    } else {
        Some(value)
    }
}

/// Once a prefix of a run of digits overflows `u32`, the whole run does.
proof fn lemma_u32_overflow(body: Seq<u8>, start: int, cursor: int)
    requires
        0 <= start <= cursor < body.len(),
        forall|j: int| start <= j <= cursor ==> 48 <= #[trigger] body[j] <= 57,
        decimal_value(body, start, (cursor + 1 - start) as nat) > u32::MAX,
    ensures
        decimal_value(body, start, (digit_run_end(body, start) - start) as nat) > u32::MAX,
        digit_run_end(body, start) > start,
{
    lemma_digit_run_extends(body, start, cursor + 1);
    let e = digit_run_end(body, start);
    lemma_digit_run_all(body, start);
    lemma_decimal_monotone(body, start, (cursor + 1 - start) as nat, (e - start) as nat);
}

proof fn lemma_digit_run_extends(body: Seq<u8>, c: int, k: int)
    requires
        0 <= c <= k <= body.len(),
        forall|j: int| c <= j < k ==> 48 <= #[trigger] body[j] <= 57,
    ensures
        digit_run_end(body, c) >= k,
    decreases k - c,
{
    if c < k {
        assert(48 <= body[c] <= 57);
        assert(digit_run_end(body, c) == digit_run_end(body, c + 1));
        lemma_digit_run_extends(body, c + 1, k);
    } else {
        lemma_digit_run_all(body, c);
    }
}

proof fn lemma_digit_run_all(body: Seq<u8>, c: int)
    requires
        0 <= c <= body.len(),
    ensures
        c <= digit_run_end(body, c) <= body.len(),
        forall|j: int| c <= j < digit_run_end(body, c) ==> 48 <= #[trigger] body[j] <= 57,
    decreases body.len() - c,
{
    if 0 <= c < body.len() && 48 <= body[c] <= 57 {
        lemma_digit_run_all(body, c + 1);
    }
}

/// `lit` occurs in `body` at `c`.
pub open spec fn literal_at(body: Seq<u8>, c: int, lit: Seq<u8>) -> bool {
    c + lit.len() <= body.len() && body.subrange(c, c + lit.len()) == lit
}

pub open spec fn true_bytes() -> Seq<u8> {
    seq![116u8, 114u8, 117u8, 101u8]
}

pub open spec fn false_bytes() -> Seq<u8> {
    seq![102u8, 97u8, 108u8, 115u8, 101u8]
}

pub open spec fn null_bytes() -> Seq<u8> {
    seq![110u8, 117u8, 108u8, 108u8]
}

/// The `true` or `false` after the colon that follows `c`.
pub open spec fn bool_value(body: Seq<u8>, c: int) -> Option<bool> {
    match value_start(body, c) {
        Some(v) => if literal_at(body, v, true_bytes()) {
            Some(true)
        } else if literal_at(body, v, false_bytes()) {
            Some(false)
        } else {
            None
        },
        None => None,
    }
}

/// `body[cursor ..]` starts with `lit`.
fn has_literal(body: &[u8], cursor: usize, lit: &[u8]) -> (r: bool)
    requires
        cursor <= body@.len(),
    ensures
        r == literal_at(body@, cursor as int, lit@),
{
    if body.len() - cursor < lit.len() {
        return false;
    }
    window_matches(body, lit, cursor)
}

/// The boolean literal after the colon that follows `cursor`.
fn parse_bool_after_colon(body: &[u8], cursor: usize) -> (r: Option<bool>)
    requires
        cursor <= body@.len(),
    ensures
        r == bool_value(body@, cursor as int),
{
    let pos = match cursor_after_colon(body, cursor) {
        Some(c) => c,
        None => { return None; }
    };
    let true_lit: [u8; 4] = [116u8, 114u8, 117u8, 101u8];
    let false_lit: [u8; 5] = [102u8, 97u8, 108u8, 115u8, 101u8];
    proof {
        assert(true_lit@ =~= true_bytes());
        assert(false_lit@ =~= false_bytes());
    }
    if has_literal(body, pos, true_lit.as_slice()) {
        Some(true)
    } else if has_literal(body, pos, false_lit.as_slice()) {
        Some(false)
    } else {
        None
    }
}

/// First position at or after `c` holding `b`, or the end of `body`.
pub open spec fn scan_to(body: Seq<u8>, c: int, b: u8) -> int
    decreases body.len() - c,
{
    if 0 <= c < body.len() && body[c] != b { scan_to(body, c + 1, b) } else { c }
}

proof fn lemma_scan_to_bounds(body: Seq<u8>, c: int, b: u8)
    requires
        0 <= c <= body.len(),
    ensures
        c <= scan_to(body, c, b) <= body.len(),
    decreases body.len() - c,
{
    if 0 <= c < body.len() && body[c] != b {
        lemma_scan_to_bounds(body, c + 1, b);
    }
}

/// The bytes after the `open` byte that starts the value after the colon following `c`,
/// up to the next `close` byte (or the end of the body, if there is none).
pub open spec fn delimited_value(body: Seq<u8>, c: int, open: u8, close: u8) -> Option<(int, int)> {
    match value_start(body, c) {
        Some(v) => if v < body.len() && body[v] == open {
            Some((v + 1, scan_to(body, v + 1, close)))
        } else {
            None
        },
        None => None,
    }
}

fn parse_delimited_after_colon(body: &[u8], cursor: usize, open: u8, close: u8) -> (r: Option<TokenSpan>)
    requires
        cursor <= body@.len(),
    ensures
        r == span_of(delimited_value(body@, cursor as int, open, close)),
        r matches Some(t) ==> t.start <= t.end <= body@.len(),
        r matches Some(t) ==> delimited_value(body@, cursor as int, open, close) == Some((t.start as int, t.end as int)),
{
    let mut pos = match cursor_after_colon(body, cursor) {
        Some(c) => c,
        None => { return None; }
    };
    if pos >= body.len() || body[pos] != open {
        return None;
    }
    pos = pos + 1;
    let start = pos;
    proof {
        lemma_scan_to_bounds(body@, start as int, close);
    }
    while pos < body.len() && body[pos] != close
        invariant
            start <= pos <= body@.len(),
            scan_to(body@, pos as int, close) == scan_to(body@, start as int, close),
        decreases body@.len() - pos,
    {
        pos = pos + 1;
    }
    Some(TokenSpan { start, end: pos })
}

/// `needle`, between double quotes, occurs in `haystack` at `p`.
pub open spec fn quoted_at(haystack: Seq<u8>, needle: Seq<u8>, p: int) -> bool {
    &&& 0 <= p
    &&& p + needle.len() + 2 <= haystack.len()
    &&& haystack[p] == 34u8
    &&& haystack[p + needle.len() + 1] == 34u8
    &&& haystack.subrange(p + 1, p + needle.len() + 1) == needle
}

/// `haystack` contains the JSON string whose text is `needle`.
fn contains_json_string(haystack: &[u8], needle: &[u8]) -> (r: bool)
    ensures
        r == exists|p: int| quoted_at(haystack@, needle@, p),
{
    let n = needle.len();
    if haystack.len() < 2 || haystack.len() - 2 < n {
        proof {
            assert forall|p: int| !quoted_at(haystack@, needle@, p) by {}
        }
        return false;
    }
    let width = n + 2;
    let mut p: usize = 0;
    while p <= haystack.len() - width
        invariant
            width == n + 2,
            n == needle@.len(),
            width <= haystack@.len(),
            forall|q: int| 0 <= q < p ==> !quoted_at(haystack@, needle@, q),
        decreases haystack@.len() - p,
    {
        if haystack[p] == 34u8 && haystack[p + n + 1] == 34u8 && window_matches(haystack, needle, p + 1) {
            proof {
                assert(haystack@.subrange(p + 1, p + 1 + n) == needle@);
                assert(quoted_at(haystack@, needle@, p as int));
            }
            return true;
        }
        proof {
            if quoted_at(haystack@, needle@, p as int) {
                assert(key_at(haystack@, needle@, p + 1));
            }
        }
        p = p + 1;
    }
    proof {
        assert forall|q: int| !quoted_at(haystack@, needle@, q) by {
            if q >= p {
                assert(q + needle@.len() + 2 > haystack@.len());
            }
        }
    }
    false
}

/// Quantized value of a flag: 10 000 for true, 0 for false.
pub fn bool_quantized(value: bool) -> (r: i16)
    ensures
        r == if value { 10000i16 } else { 0i16 },
{
    if value {
        10000
    } else {
        0
    }
}

/// The quantized coordinate 5 value of a transaction without a previous one.
pub const SENTINEL: i16 = -10000i16;

/// The region of the reference space that the support index covers.
pub open spec fn in_support_window(q: Seq<i16>) -> bool {
    &&& 300 <= q[0] <= 3600
    &&& 2500 <= q[1] <= 6667
    &&& 500 <= q[2] <= 10000
    &&& 2609 <= q[3] <= 9565
    &&& 0 <= q[7] <= 5000
    &&& 500 <= q[8] <= 6000
    &&& 20 <= q[13] <= 500
    &&& q[5] != -10000 ==> (7 <= q[5] <= 5000 && 0 <= q[6] <= 3500)
}

/// A query in the support window has each gated coordinate within its range: amount
/// ratio (0), installments (1), amount (2), hour (3), distance from home (7), transactions
/// in the last 24 hours (8, from 1 to 12 of 20) and merchant average (13).
pub proof fn law_support_window_bounds(q: Seq<i16>)
    ensures
        in_support_window(q) ==> {
            &&& 300 <= q[0] <= 3600
            &&& 2500 <= q[1] <= 6667
            &&& 500 <= q[2] <= 10000
            &&& 2609 <= q[3] <= 9565
            &&& 0 <= q[7] <= 5000
            &&& 500 <= q[8] && q[8] <= 6000
            &&& 20 <= q[13] <= 500
        },
        !(500 <= q[8] <= 6000) ==> !in_support_window(q),
{
}

/// The query lies in the region the support index covers.
pub fn is_support_window(query: &QuantizedVector) -> (r: bool)
    ensures
        r == in_support_window(query@),
{
    if !(300 <= query[0] && query[0] <= 3600) {
        return false;
    }
    if !(2500 <= query[1] && query[1] <= 6667) {
        return false;
    }
    if !(500 <= query[2] && query[2] <= 10_000) {
        return false;
    }
    if !(2609 <= query[3] && query[3] <= 9565) {
        return false;
    }
    if !(0 <= query[7] && query[7] <= 5000) {
        return false;
    }
    if !(500 <= query[8] && query[8] <= 6000) {
        return false;
    }
    if !(20 <= query[13] && query[13] <= 500) {
        return false;
    }
    if query[5] != SENTINEL && (!(7 <= query[5] && query[5] <= 5000) || !(0 <= query[6] && query[6] <= 3500)) {
        return false;
    }
    true
}

proof fn lemma_ascii_key(s: &str)
    requires
        vstd::string::is_ascii(s),
        s@.len() > 0,
    ensures
        s.spec_bytes().len() > 0,
{
    vstd::string::is_ascii_spec_bytes(s);
}

/// The quoted key `"amount"`.
pub open spec fn key_amount() -> Seq<u8> {
    "\"amount\"".spec_bytes()
}

/// The quoted key `"customer"`.
pub open spec fn key_customer() -> Seq<u8> {
    "\"customer\"".spec_bytes()
}

/// The quoted key `"avg_amount"`.
pub open spec fn key_avg_amount() -> Seq<u8> {
    "\"avg_amount\"".spec_bytes()
}

/// The quoted key `"transaction"`.
pub open spec fn key_transaction() -> Seq<u8> {
    "\"transaction\"".spec_bytes()
}

/// The quoted key `"installments"`.
pub open spec fn key_installments() -> Seq<u8> {
    "\"installments\"".spec_bytes()
}

/// The quoted key `"requested_at"`.
pub open spec fn key_requested_at() -> Seq<u8> {
    "\"requested_at\"".spec_bytes()
}

/// The quoted key `"tx_count_24h"`.
pub open spec fn key_tx_count_24h() -> Seq<u8> {
    "\"tx_count_24h\"".spec_bytes()
}

/// The quoted key `"known_merchants"`.
pub open spec fn key_known_merchants() -> Seq<u8> {
    "\"known_merchants\"".spec_bytes()
}

/// The quoted key `"merchant"`.
pub open spec fn key_merchant() -> Seq<u8> {
    "\"merchant\"".spec_bytes()
}

/// The quoted key `"id"`.
pub open spec fn key_id() -> Seq<u8> {
    "\"id\"".spec_bytes()
}

/// The quoted key `"mcc"`.
pub open spec fn key_mcc() -> Seq<u8> {
    "\"mcc\"".spec_bytes()
}

/// The quoted key `"terminal"`.
pub open spec fn key_terminal() -> Seq<u8> {
    "\"terminal\"".spec_bytes()
}

/// The quoted key `"is_online"`.
pub open spec fn key_is_online() -> Seq<u8> {
    "\"is_online\"".spec_bytes()
}

/// The quoted key `"card_present"`.
pub open spec fn key_card_present() -> Seq<u8> {
    "\"card_present\"".spec_bytes()
}

/// The quoted key `"km_from_home"`.
pub open spec fn key_km_from_home() -> Seq<u8> {
    "\"km_from_home\"".spec_bytes()
}

/// The quoted key `"last_transaction"`.
pub open spec fn key_last_transaction() -> Seq<u8> {
    "\"last_transaction\"".spec_bytes()
}

/// The quoted key `"timestamp"`.
pub open spec fn key_timestamp() -> Seq<u8> {
    "\"timestamp\"".spec_bytes()
}

/// The quoted key `"km_from_current"`.
pub open spec fn key_km_from_current() -> Seq<u8> {
    "\"km_from_current\"".spec_bytes()
}

fn amount_key() -> (k: &'static [u8])
    ensures
        k@ == key_amount(),
        k@.len() > 0,
{
    proof {
        reveal_strlit("\"amount\"");
        lemma_ascii_key("\"amount\"");
    }
    "\"amount\"".as_bytes()
}

fn customer_key() -> (k: &'static [u8])
    ensures
        k@ == key_customer(),
        k@.len() > 0,
{
    proof {
        reveal_strlit("\"customer\"");
        lemma_ascii_key("\"customer\"");
    }
    "\"customer\"".as_bytes()
}

fn avg_amount_key() -> (k: &'static [u8])
    ensures
        k@ == key_avg_amount(),
        k@.len() > 0,
{
    proof {
        reveal_strlit("\"avg_amount\"");
        lemma_ascii_key("\"avg_amount\"");
    }
    "\"avg_amount\"".as_bytes()
}

fn transaction_key() -> (k: &'static [u8])
    ensures
        k@ == key_transaction(),
        k@.len() > 0,
{
    proof {
        reveal_strlit("\"transaction\"");
        lemma_ascii_key("\"transaction\"");
    }
    "\"transaction\"".as_bytes()
}

fn installments_key() -> (k: &'static [u8])
    ensures
        k@ == key_installments(),
        k@.len() > 0,
{
    proof {
        reveal_strlit("\"installments\"");
        lemma_ascii_key("\"installments\"");
    }
    "\"installments\"".as_bytes()
}

fn requested_at_key() -> (k: &'static [u8])
    ensures
        k@ == key_requested_at(),
        k@.len() > 0,
{
    proof {
        reveal_strlit("\"requested_at\"");
        lemma_ascii_key("\"requested_at\"");
    }
    "\"requested_at\"".as_bytes()
}

fn tx_count_24h_key() -> (k: &'static [u8])
    ensures
        k@ == key_tx_count_24h(),
        k@.len() > 0,
{
    proof {
        reveal_strlit("\"tx_count_24h\"");
        lemma_ascii_key("\"tx_count_24h\"");
    }
    "\"tx_count_24h\"".as_bytes()
}

fn known_merchants_key() -> (k: &'static [u8])
    ensures
        k@ == key_known_merchants(),
        k@.len() > 0,
{
    proof {
        reveal_strlit("\"known_merchants\"");
        lemma_ascii_key("\"known_merchants\"");
    }
    "\"known_merchants\"".as_bytes()
}

fn merchant_key() -> (k: &'static [u8])
    ensures
        k@ == key_merchant(),
        k@.len() > 0,
{
    proof {
        reveal_strlit("\"merchant\"");
        lemma_ascii_key("\"merchant\"");
    }
    "\"merchant\"".as_bytes()
}

fn id_key() -> (k: &'static [u8])
    ensures
        k@ == key_id(),
        k@.len() > 0,
{
    proof {
        reveal_strlit("\"id\"");
        lemma_ascii_key("\"id\"");
    }
    "\"id\"".as_bytes()
}

fn mcc_key() -> (k: &'static [u8])
    ensures
        k@ == key_mcc(),
        k@.len() > 0,
{
    proof {
        reveal_strlit("\"mcc\"");
        lemma_ascii_key("\"mcc\"");
    }
    "\"mcc\"".as_bytes()
}

fn terminal_key() -> (k: &'static [u8])
    ensures
        k@ == key_terminal(),
        k@.len() > 0,
{
    proof {
        reveal_strlit("\"terminal\"");
        lemma_ascii_key("\"terminal\"");
    }
    "\"terminal\"".as_bytes()
}

fn is_online_key() -> (k: &'static [u8])
    ensures
        k@ == key_is_online(),
        k@.len() > 0,
{
    proof {
        reveal_strlit("\"is_online\"");
        lemma_ascii_key("\"is_online\"");
    }
    "\"is_online\"".as_bytes()
}

fn card_present_key() -> (k: &'static [u8])
    ensures
        k@ == key_card_present(),
        k@.len() > 0,
{
    proof {
        reveal_strlit("\"card_present\"");
        lemma_ascii_key("\"card_present\"");
    }
    "\"card_present\"".as_bytes()
}

fn km_from_home_key() -> (k: &'static [u8])
    ensures
        k@ == key_km_from_home(),
        k@.len() > 0,
{
    proof {
        reveal_strlit("\"km_from_home\"");
        lemma_ascii_key("\"km_from_home\"");
    }
    "\"km_from_home\"".as_bytes()
}

fn last_transaction_key() -> (k: &'static [u8])
    ensures
        k@ == key_last_transaction(),
        k@.len() > 0,
{
    proof {
        reveal_strlit("\"last_transaction\"");
        lemma_ascii_key("\"last_transaction\"");
    }
    "\"last_transaction\"".as_bytes()
}

fn timestamp_key() -> (k: &'static [u8])
    ensures
        k@ == key_timestamp(),
        k@.len() > 0,
{
    proof {
        reveal_strlit("\"timestamp\"");
        lemma_ascii_key("\"timestamp\"");
    }
    "\"timestamp\"".as_bytes()
}

fn km_from_current_key() -> (k: &'static [u8])
    ensures
        k@ == key_km_from_current(),
        k@.len() > 0,
{
    proof {
        reveal_strlit("\"km_from_current\"");
        lemma_ascii_key("\"km_from_current\"");
    }
    "\"km_from_current\"".as_bytes()
}

/// Where the value of `key` starts looking for it from `start`: just past the key.
pub open spec fn key_end(body: Seq<u8>, key: Seq<u8>, start: int) -> Option<int> {
    match first_key_from(body, key, start) {
        Some(p) => Some(p + key.len()),
        None => None,
    }
}

/// The number after the first `key` at or after `start`.
pub open spec fn number_field(body: Seq<u8>, key: Seq<u8>, start: int) -> Option<(int, int)> {
    match key_end(body, key, start) {
        Some(e) => number_token(body, e),
        None => None,
    }
}

/// The fast path's two numbers: the first `"amount"` of the body, and the first
/// `"avg_amount"` after the first `"customer"`.
pub open spec fn amount_fields(body: Seq<u8>) -> Option<(TokenSpan, TokenSpan)> {
    match number_field(body, key_amount(), 0) {
        Some(amount) => match first_key_from(body, key_customer(), 0) {
            Some(c) => match number_field(body, key_avg_amount(), c) {
                Some(avg) => Some((span_of(Some(amount)).unwrap(), span_of(Some(avg)).unwrap())),
                None => None,
            },
            None => None,
        },
        None => None,
    }
}

/// The number after `key`, found from `start`.
fn number_field_from(body: &[u8], key: &[u8], start: usize) -> (r: Option<TokenSpan>)
    requires
        key@.len() > 0,
    ensures
        r == span_of(number_field(body@, key@, start as int)),
{
    let k = match find_key_from(body, key, start) {
        Some(p) => p,
        None => { return None; }
    };
    let n = body.len();
    proof {
        assert(k + key@.len() <= n);
    }
    number_after_colon(body, k + key.len())
}

/// Locates the transaction amount and the customer's average amount, the two numbers the
/// fast decision needs. Reading them as decimals is left to the caller.
pub fn amount_tokens(body: &[u8]) -> (r: Option<(TokenSpan, TokenSpan)>)
    ensures
        r == amount_fields(body@),
{
    let amount = match number_field_from(body, amount_key(), 0) {
        Some(t) => t,
        None => { return None; }
    };
    let customer = match find_key(body, customer_key()) {
        Some(c) => c,
        None => { return None; }
    };
    let avg = match number_field_from(body, avg_amount_key(), customer) {
        Some(t) => t,
        None => { return None; }
    };
    Some((amount, avg))
}

/// A parsed timestamp from the raw bytes of a JSON string.
pub open spec fn timestamp_value(s: Seq<u8>) -> Option<ParsedTimestamp> {
    if valid_utf8(s) && has_timestamp_layout(s) && layout_in_range(s) {
        Some(parsed_from_layout(s))
    } else {
        None
    }
}

fn parse_timestamp_bytes(bytes: &[u8]) -> (r: Option<ParsedTimestamp>)
    ensures
        r == timestamp_value(bytes@),
{
    let text = match utf8_str(bytes) {
        Some(t) => t,
        None => { return None; }
    };
    match parse_utc_timestamp(text) {
        Ok(ts) => Some(ts),
        Err(_) => None,
    }
}

/// The fields of the previous transaction that the quantized query needs.
#[derive(Debug, Clone, Copy, PartialEq, Eq, Structural)]
pub struct LastTransactionFields {
    pub timestamp: ParsedTimestamp,
    /// The `km_from_current` number.
    pub km_from_current: TokenSpan,
}

/// The fields of a request body that the quantized query needs, besides the two amounts.
/// Numbers and the merchant category code are byte ranges of the body.
#[derive(Debug, Clone, Copy, PartialEq, Eq, Structural)]
pub struct PayloadFields {
    pub installments: u32,
    pub requested_at: ParsedTimestamp,
    pub tx_count_24h: u32,
    /// The merchant id is not among the customer's known merchants.
    pub merchant_unknown: bool,
    /// The text of the `mcc` string.
    pub mcc: TokenSpan,
    pub merchant_avg_amount: TokenSpan,
    pub is_online: bool,
    pub card_present: bool,
    pub km_from_home: TokenSpan,
    /// `None` when `last_transaction` is `null`.
    pub last_transaction: Option<LastTransactionFields>,
}

pub open spec fn u32_field(body: Seq<u8>, key: Seq<u8>, start: int) -> Option<u32> {
    match key_end(body, key, start) {
        Some(e) => u32_value(body, e),
        None => None,
    }
}

pub open spec fn bool_field(body: Seq<u8>, key: Seq<u8>, start: int) -> Option<bool> {
    match key_end(body, key, start) {
        Some(e) => bool_value(body, e),
        None => None,
    }
}

pub open spec fn string_field(body: Seq<u8>, key: Seq<u8>, start: int) -> Option<(int, int)> {
    match key_end(body, key, start) {
        Some(e) => delimited_value(body, e, 34u8, 34u8),
        None => None,
    }
}

pub open spec fn array_field(body: Seq<u8>, key: Seq<u8>, start: int) -> Option<(int, int)> {
    match key_end(body, key, start) {
        Some(e) => delimited_value(body, e, 91u8, 93u8),
        None => None,
    }
}

pub open spec fn timestamp_field(body: Seq<u8>, key: Seq<u8>, start: int) -> Option<ParsedTimestamp> {
    match string_field(body, key, start) {
        Some((a, b)) => timestamp_value(body.subrange(a, b)),
        None => None,
    }
}

/// The previous-transaction part: `None` (the outer option) when a field is missing or
/// malformed, `Some(None)` when it is `null`.
pub open spec fn last_transaction_field(body: Seq<u8>) -> Option<Option<LastTransactionFields>> {
    match key_end(body, key_last_transaction(), 0) {
        Some(e) => match value_start(body, e) {
            Some(v) => if literal_at(body, v, null_bytes()) {
                Some(None)
            } else {
                match timestamp_field(body, key_timestamp(), v) {
                    Some(ts) => match number_field(body, key_km_from_current(), v) {
                        Some(km) => Some(Some(LastTransactionFields {
                            timestamp: ts,
                            km_from_current: span_of(Some(km)).unwrap(),
                        })),
                        None => None,
                    },
                    None => None,
                }
            },
            None => None,
        },
        None => None,
    }
}

/// Each field is looked up from the first occurrence of its section key (`"transaction"`,
/// `"customer"`, `"merchant"`, `"terminal"`, `"last_transaction"`).
pub open spec fn payload_fields(body: Seq<u8>) -> Option<PayloadFields> {
    match (first_key_from(body, key_transaction(), 0), first_key_from(body, key_customer(), 0),
        first_key_from(body, key_merchant(), 0), first_key_from(body, key_terminal(), 0)) {
        (Some(t), Some(c), Some(m), Some(te)) => {
            match (u32_field(body, key_installments(), t), timestamp_field(body, key_requested_at(), t),
                u32_field(body, key_tx_count_24h(), c), array_field(body, key_known_merchants(), c),
                string_field(body, key_id(), m), string_field(body, key_mcc(), m),
                number_field(body, key_avg_amount(), m)) {
                (Some(installments), Some(requested_at), Some(tx_count_24h), Some(known), Some(id),
                    Some(mcc), Some(merchant_avg)) => {
                    match (bool_field(body, key_is_online(), te), bool_field(body, key_card_present(), te),
                        number_field(body, key_km_from_home(), te), last_transaction_field(body)) {
                        (Some(is_online), Some(card_present), Some(km_from_home), Some(last)) => Some(PayloadFields {
                            installments,
                            requested_at,
                            tx_count_24h,
                            merchant_unknown: !(exists|p: int| quoted_at(body.subrange(known.0, known.1),
                                body.subrange(id.0, id.1), p)),
                            mcc: span_of(Some(mcc)).unwrap(),
                            merchant_avg_amount: span_of(Some(merchant_avg)).unwrap(),
                            is_online,
                            card_present,
                            km_from_home: span_of(Some(km_from_home)).unwrap(),
                            last_transaction: last,
                        }),
                        _ => None,
                    }
                },
                _ => None,
            }
        },
        _ => None,
    }
}

/// `p` is the first place at or after `from` where `key` occurs in `body`.
pub open spec fn first_occurrence(body: Seq<u8>, key: Seq<u8>, from: int, p: int) -> bool {
    &&& 0 <= from <= p
    &&& key_at(body, key, p)
    &&& forall|q: int| from <= q < p ==> !#[trigger] key_at(body, key, q)
}

proof fn lemma_first_occurrence(body: Seq<u8>, key: Seq<u8>, from: int, p: int)
    requires
        first_occurrence(body, key, from, p),
    ensures
        first_key_from(body, key, from) == Some(p),
    decreases p - from,
{
    if from < p {
        assert(!key_at(body, key, from));
        lemma_first_occurrence(body, key, from + 1, p);
    }
}

/// Where the value of a key ending at `e` starts: past the spaces, the colon and the
/// spaces after it.
pub open spec fn value_after_key(body: Seq<u8>, e: int) -> int {
    skip_spaces(body, skip_spaces(body, e) + 1)
}

/// The flag after the first `key` from `from` is the `true` or `false` literal written
/// after it.
proof fn lemma_bool_field_literal(body: Seq<u8>, key: Seq<u8>, from: int, k: int)
    requires
        first_occurrence(body, key, from, k),
    ensures
        bool_field(body, key, from) matches Some(b) ==> {
            let v = value_after_key(body, k + key.len());
            &&& b <==> literal_at(body, v, true_bytes())
            &&& !b <==> literal_at(body, v, false_bytes())
        },
{
    lemma_first_occurrence(body, key, from, k);
    let e = k + key.len();
    lemma_skip_spaces_bounds(body, e);
    let c1 = skip_spaces(body, e);
    let v = value_after_key(body, e);
    if c1 + 1 <= body.len() {
        lemma_skip_spaces_bounds(body, c1 + 1);
    }
    if literal_at(body, v, true_bytes()) && literal_at(body, v, false_bytes()) {
        assert(0 <= v);
        assert(body.subrange(v, v + 4)[0] == body[v]);
        assert(body.subrange(v, v + 5)[0] == body[v]);
    }
}

/// The flags of a parsed body are those looked up after the first `"terminal"`.
proof fn lemma_payload_flags(body: Seq<u8>, te: int)
    requires
        first_key_from(body, key_terminal(), 0) == Some(te),
    ensures
        payload_fields(body) matches Some(f) ==> bool_field(body, key_card_present(), te) == Some(f.card_present)
            && bool_field(body, key_is_online(), te) == Some(f.is_online),
{
}

/// A parsed body's `card_present` is the literal written after the first `"card_present"`
/// that follows the first `"terminal"`: `true` exactly when that literal is `true`, `false`
/// exactly when it is `false`.
pub proof fn law_card_present_is_its_literal(body: Seq<u8>, te: int, k: int)
    requires
        first_occurrence(body, key_terminal(), 0, te),
        first_occurrence(body, key_card_present(), te, k),
    ensures
        payload_fields(body) matches Some(f) ==> {
            let v = value_after_key(body, k + key_card_present().len());
            &&& f.card_present <==> literal_at(body, v, true_bytes())
            &&& !f.card_present <==> literal_at(body, v, false_bytes())
        },
{
    lemma_first_occurrence(body, key_terminal(), 0, te);
    lemma_payload_flags(body, te);
    lemma_bool_field_literal(body, key_card_present(), te, k);
}

/// A parsed body's `is_online` is the literal written after the first `"is_online"` that
/// follows the first `"terminal"`.
pub proof fn law_is_online_is_its_literal(body: Seq<u8>, te: int, k: int)
    requires
        first_occurrence(body, key_terminal(), 0, te),
        first_occurrence(body, key_is_online(), te, k),
    ensures
        payload_fields(body) matches Some(f) ==> {
            let v = value_after_key(body, k + key_is_online().len());
            &&& f.is_online <==> literal_at(body, v, true_bytes())
            &&& !f.is_online <==> literal_at(body, v, false_bytes())
        },
{
    lemma_first_occurrence(body, key_terminal(), 0, te);
    lemma_payload_flags(body, te);
    lemma_bool_field_literal(body, key_is_online(), te, k);
}

fn value_cursor(body: &[u8], key: &[u8], start: usize) -> (r: Option<usize>)
    requires
        key@.len() > 0,
    ensures
        r is Some <==> key_end(body@, key@, start as int) is Some,
        r matches Some(e) ==> key_end(body@, key@, start as int) == Some(e as int) && e <= body@.len(),
{
    let k = match find_key_from(body, key, start) {
        Some(p) => p,
        None => { return None; }
    };
    let n = body.len();
    proof {
        assert(k + key@.len() <= n);
    }
    Some(k + key.len())
}

fn u32_field_from(body: &[u8], key: &[u8], start: usize) -> (r: Option<u32>)
    requires
        key@.len() > 0,
    ensures
        r == u32_field(body@, key@, start as int),
{
    match value_cursor(body, key, start) {
        Some(e) => parse_u32_after_colon(body, e),
        None => None,
    }
}

fn bool_field_from(body: &[u8], key: &[u8], start: usize) -> (r: Option<bool>)
    requires
        key@.len() > 0,
    ensures
        r == bool_field(body@, key@, start as int),
{
    match value_cursor(body, key, start) {
        Some(e) => parse_bool_after_colon(body, e),
        None => None,
    }
}

fn string_field_from(body: &[u8], key: &[u8], start: usize) -> (r: Option<TokenSpan>)
    requires
        key@.len() > 0,
    ensures
        r == span_of(string_field(body@, key@, start as int)),
        r matches Some(t) ==> t.start <= t.end <= body@.len(),
        r matches Some(t) ==> string_field(body@, key@, start as int) == Some((t.start as int, t.end as int)),
{
    match value_cursor(body, key, start) {
        Some(e) => parse_delimited_after_colon(body, e, 34u8, 34u8),
        None => None,
    }
}

fn array_field_from(body: &[u8], key: &[u8], start: usize) -> (r: Option<TokenSpan>)
    requires
        key@.len() > 0,
    ensures
        r == span_of(array_field(body@, key@, start as int)),
        r matches Some(t) ==> t.start <= t.end <= body@.len(),
        r matches Some(t) ==> array_field(body@, key@, start as int) == Some((t.start as int, t.end as int)),
{
    match value_cursor(body, key, start) {
        Some(e) => parse_delimited_after_colon(body, e, 91u8, 93u8),
        None => None,
    }
}

fn timestamp_field_from(body: &[u8], key: &[u8], start: usize) -> (r: Option<ParsedTimestamp>)
    requires
        key@.len() > 0,
    ensures
        r == timestamp_field(body@, key@, start as int),
{
    match string_field_from(body, key, start) {
        Some(t) => {
            let text = &body[t.start..t.end];
            proof {
                assert(text@ == body@.subrange(t.start as int, t.end as int));
            }
            parse_timestamp_bytes(text)
        },
        None => None,
    }
}

fn last_transaction_from(body: &[u8]) -> (r: Option<Option<LastTransactionFields>>)
    ensures
        r == last_transaction_field(body@),
{
    let last_cursor = match value_cursor(body, last_transaction_key(), 0) {
        Some(e) => match cursor_after_colon(body, e) {
            Some(v) => v,
            None => { return None; }
        },
        None => { return None; }
    };
    let null_lit: [u8; 4] = [110u8, 117u8, 108u8, 108u8];
    proof {
        assert(null_lit@ =~= null_bytes());
    }
    if has_literal(body, last_cursor, null_lit.as_slice()) {
        return Some(None);
    }
    let timestamp = match timestamp_field_from(body, timestamp_key(), last_cursor) {
        Some(ts) => ts,
        None => { return None; }
    };
    let km_from_current = match number_field_from(body, km_from_current_key(), last_cursor) {
        Some(km) => km,
        None => { return None; }
    };
    Some(Some(LastTransactionFields { timestamp, km_from_current }))
}

/// Locates the fields of the request body that the quantized query needs, each looked up
/// after the first occurrence of its section key; `None` when one is missing or malformed.
#[verifier::rlimit(60)]
pub fn parse_payload_fields(body: &[u8]) -> (r: Option<PayloadFields>)
    ensures
        r == payload_fields(body@),
{
    let transaction = find_key(body, transaction_key());
    let customer = find_key(body, customer_key());
    let merchant = find_key(body, merchant_key());
    let terminal = find_key(body, terminal_key());
    let (t, c, m, te) = match (transaction, customer, merchant, terminal) {
        (Some(t), Some(c), Some(m), Some(te)) => (t, c, m, te),
        _ => { return None; }
    };
    let installments = u32_field_from(body, installments_key(), t);
    let requested_at = timestamp_field_from(body, requested_at_key(), t);
    let tx_count_24h = u32_field_from(body, tx_count_24h_key(), c);
    let known = array_field_from(body, known_merchants_key(), c);
    let id = string_field_from(body, id_key(), m);
    let mcc = string_field_from(body, mcc_key(), m);
    let merchant_avg = number_field_from(body, avg_amount_key(), m);
    let (installments, requested_at, tx_count_24h, known, id, mcc, merchant_avg) = match (
        installments, requested_at, tx_count_24h, known, id, mcc, merchant_avg,
    ) {
        (Some(a), Some(b), Some(c), Some(d), Some(e), Some(f), Some(g)) => (a, b, c, d, e, f, g),
        _ => { return None; }
    };
    let is_online = bool_field_from(body, is_online_key(), te);
    let card_present = bool_field_from(body, card_present_key(), te);
    let km_from_home = number_field_from(body, km_from_home_key(), te);
    let last = last_transaction_from(body);
    let (is_online, card_present, km_from_home, last) = match (is_online, card_present, km_from_home, last) {
        (Some(a), Some(b), Some(c), Some(d)) => (a, b, c, d),
        _ => { return None; }
    };
    let known_text = &body[known.start..known.end];
    let id_text = &body[id.start..id.end];
    proof {
        assert(known_text@ == body@.subrange(known.start as int, known.end as int));
        assert(id_text@ == body@.subrange(id.start as int, id.end as int));
    }
    let merchant_unknown = !contains_json_string(known_text, id_text);
    Some(PayloadFields {
        installments,
        requested_at,
        tx_count_24h,
        merchant_unknown,
        mcc,
        merchant_avg_amount: merchant_avg,
        is_online,
        card_present,
        km_from_home,
        last_transaction: last,
    })
}

} // verus!
