//! The little of HTTP that the server reads, and the responses that it sends.
use crate::bytes::matches_at;
use crate::json::{parse_transaction, ParsedTransaction};
use vstd::prelude::*;
use vstd::slice::slice_subrange;
use vstd::string::StringSliceAdditionalSpecFns;

verus! {

use crate::bytes::{is_digit, stands_at};
use crate::grammar::{after_digits, decimal, transaction_of, Transaction};

/// The largest request that is read, head and body together.
pub const MAX_HTTP_BYTES: usize = 16384;

/// How many frauds among the neighbours refuse a transaction: three of five is the
/// share of 0.6 from which on a score is not approved.
pub const REFUSED_FROM: usize = 3;

/// Sent to `GET /ready`.
pub const READY_RESPONSE: &'static str =
    "HTTP/1.1 200 OK\r\nContent-Type: application/json\r\nContent-Length: 24\r\nConnection: close\r\n\r\n{\"ok\":true,\"role\":\"api\"}";

/// Sent to whatever is not understood.
pub const BAD_REQUEST_RESPONSE: &'static str =
    "HTTP/1.1 400 Bad Request\r\nContent-Length: 0\r\nConnection: close\r\n\r\n";

// ---------------------------------------------------------------------------
// The end of the head.
// ---------------------------------------------------------------------------

/// Whether an empty line, which ends the head, begins at `i`.
pub open spec fn ends_head(s: Seq<u8>, i: int) -> bool {
    &&& 0 <= i
    &&& i + 4 <= s.len()
    &&& s[i] == 0x0d
    &&& s[i + 1] == 0x0a
    &&& s[i + 2] == 0x0d
    &&& s[i + 3] == 0x0a
}

/// The first position from `from` on at which the head ends.
pub open spec fn head_end(s: Seq<u8>, from: int) -> Option<int>
    decreases s.len() - from,
{
    if from + 4 > s.len() {
        None
    } else if ends_head(s, from) {
        Some(from)
    } else {
        head_end(s, from + 1)
    }
}

/// Where the first empty line from `start` on begins.
pub fn find_header_end_from(buf: &[u8], start: usize) -> (r: Option<usize>)
    ensures
        match head_end(buf@, start as int) {
            Some(i) => r matches Some(x) && x == i && start <= i && i + 4 <= buf@.len(),
            None => r is None,
        },
{
    if buf.len() < 4 || start >= buf.len() {
        return None;
    }
    let mut i: usize = start;
    while i < buf.len() - 3
        invariant
            4 <= buf.len(),
            start <= i <= buf.len(),
            head_end(buf@, i as int) == head_end(buf@, start as int),
        decreases buf.len() - i,
    {
        if buf[i] == 0x0d && buf[i + 1] == 0x0a && buf[i + 2] == 0x0d && buf[i + 3] == 0x0a {
            return Some(i);
        }
        i += 1;
    }
    None
}

/// Where the first empty line begins.
pub fn find_header_end(buf: &[u8]) -> (r: Option<usize>)
    ensures
        match head_end(buf@, 0) {
            Some(i) => r matches Some(x) && x == i && i + 4 <= buf@.len(),
            None => r is None,
        },
{
    find_header_end_from(buf, 0)
}

pub proof fn lemma_head_end(s: Seq<u8>, from: int)
    requires
        0 <= from,
    ensures
        match head_end(s, from) {
            Some(i) => from <= i && ends_head(s, i) && forall|j: int|
                from <= j < i ==> !ends_head(s, j),
            None => forall|j: int| from <= j ==> !ends_head(s, j),
        },
    decreases s.len() - from,
{
    if from + 4 <= s.len() && !ends_head(s, from) {
        lemma_head_end(s, from + 1);
    }
}

/// The end of the head does not move when more bytes arrive.
pub proof fn law_head_end_stays(s: Seq<u8>, more: Seq<u8>)
    ensures
        head_end(s, 0) matches Some(i) ==> head_end(s + more, 0) == Some(i),
{
    lemma_head_end(s, 0);
    lemma_head_end(s + more, 0);
    if let Some(i) = head_end(s, 0) {
        assert(ends_head(s + more, i));
        if let Some(k) = head_end(s + more, 0) {
            if k < i {
                assert(ends_head(s, k));
            }
        }
    }
}

/// Where no empty line begins before `from`, the search may begin there.
pub proof fn lemma_head_end_skip(s: Seq<u8>, from: int)
    requires
        0 <= from,
        forall|j: int| 0 <= j < from ==> !ends_head(s, j),
    ensures
        head_end(s, from) == head_end(s, 0),
{
    lemma_head_end(s, 0);
    lemma_head_end(s, from);
}

// ---------------------------------------------------------------------------
// The length of the body.
// ---------------------------------------------------------------------------

/// A letter in lower case, any other byte as it is.
pub open spec fn lower(b: u8) -> u8 {
    if 0x41 <= b <= 0x5a {
        (b + 0x20) as u8
    } else {
        b
    }
}

/// Whether `a` in lower case is `b`.
pub open spec fn equals_lowered(a: Seq<u8>, b: Seq<u8>) -> bool {
    &&& a.len() == b.len()
    &&& forall|i: int| 0 <= i < a.len() ==> lower(#[trigger] a[i]) == b[i]
}

/// Whether `a` in lower case is `b`.
pub fn ascii_eq_ignore_case(a: &[u8], b: &[u8]) -> (r: bool)
    ensures
        r == equals_lowered(a@, b@),
{
    if a.len() != b.len() {
        return false;
    }
    let mut i: usize = 0;
    while i < a.len()
        invariant
            i <= a.len(),
            a.len() == b.len(),
            forall|j: int| 0 <= j < i ==> lower(#[trigger] a@[j]) == b@[j],
        decreases a.len() - i,
    {
        let x = a[i];
        let y = if 0x41 <= x && x <= 0x5a {
            x + 0x20
        } else {
            x
        };
        if y != b[i] {
            assert(lower(a@[i as int]) != b@[i as int]);
            return false;
        }
        i += 1;
    }
    true
}

/// The first position from `from` on at which `needle` stands in any case.
pub open spec fn find_lowered(s: Seq<u8>, from: int, needle: Seq<u8>) -> Option<int>
    decreases s.len() - from,
{
    if from < 0 || from + needle.len() > s.len() {
        None
    } else if equals_lowered(s.subrange(from, from + needle.len()), needle) {
        Some(from)
    } else if from < s.len() {
        find_lowered(s, from + 1, needle)
    } else {
        None
    }
}

/// The whitespace that may stand before a length.
pub open spec fn is_blank(b: u8) -> bool {
    b == 0x20 || b == 0x09 || b == 0x0a || b == 0x0c || b == 0x0d
}

pub open spec fn after_blanks(s: Seq<u8>, p: int) -> int
    decreases s.len() - p,
{
    if 0 <= p < s.len() && is_blank(s[p]) {
        after_blanks(s, p + 1)
    } else {
        p
    }
}

/// A number, or the largest one that fits where it does not fit.
pub open spec fn saturated(n: int) -> usize {
    if n <= usize::MAX {
        n as usize
    } else {
        usize::MAX
    }
}

/// The digits at `p`.
pub open spec fn digits_at(s: Seq<u8>, p: int) -> Seq<u8> {
    s.subrange(p, after_digits(s, p))
}

/// The length of the body that a head declares: the number behind the first
/// `content-length:`, in any case. A number that does not fit counts as the largest
/// that does.
pub open spec fn declared_length(head: Seq<u8>) -> Option<usize> {
    let needle = "content-length:".spec_bytes();
    match find_lowered(head, 0, needle) {
        Some(i) => {
            let digits = digits_at(head, after_blanks(head, i + needle.len()));
            if digits.len() == 0 {
                None
            } else {
                Some(saturated(decimal(digits)))
            }
        },
        None => None,
    }
}

/// The length of the body that a head declares.
pub fn parse_content_length(headers: &[u8]) -> (r: Option<usize>)
    ensures
        r == declared_length(headers@),
{
    parse_content_length_fast(headers)
}

/// The length of the body that a head declares, in one pass over its bytes.
pub fn parse_content_length_fast(headers: &[u8]) -> (r: Option<usize>)
    ensures
        r == declared_length(headers@),
{
    let needle = "content-length:".as_bytes();
    proof {
        reveal_strlit("content-length:");
        vstd::utf8::is_ascii_chars_encode_utf8("content-length:"@);
        assert(needle@.len() == 15);
    }
    let mut i: usize = 0;
    while headers.len() >= needle.len() && i <= headers.len() - needle.len()
        invariant
            needle@ == "content-length:".spec_bytes(),
            needle@.len() == 15,
            i <= headers.len(),
            find_lowered(headers@, i as int, needle@) == find_lowered(headers@, 0, needle@),
        decreases headers.len() - i,
    {
        if ascii_eq_ignore_case(slice_subrange(headers, i, i + needle.len()), needle) {
            let mut j: usize = i + needle.len();
            let ghost start = j as int;
            while j < headers.len() && (headers[j] == 0x20 || headers[j] == 0x09 || headers[j]
                == 0x0a || headers[j] == 0x0c || headers[j] == 0x0d)
                invariant
                    start <= j <= headers.len(),
                    after_blanks(headers@, j as int) == after_blanks(headers@, start),
                decreases headers.len() - j,
            {
                j += 1;
            }
            let ghost first = j as int;
            let mut value: usize = 0;
            let mut any: bool = false;
            proof {
                assert(headers@.subrange(first, first) =~= Seq::empty());
                crate::grammar::lemma_after_digits(headers@, first);
            }
            while j < headers.len() && 0x30 <= headers[j] && headers[j] <= 0x39
                invariant
                    0 <= first <= j <= headers.len(),
                    after_digits(headers@, j as int) == after_digits(headers@, first),
                    any == (j > first),
                    decimal(headers@.subrange(first, j as int)) >= 0,
                    value == saturated(decimal(headers@.subrange(first, j as int))),
                decreases headers.len() - j,
            {
                let digit = (headers[j] - 0x30) as usize;
                let ghost run = headers@.subrange(first, j as int);
                let ghost grown = headers@.subrange(first, j + 1);
                assert(grown.drop_last() =~= run);
                assert(decimal(grown) == decimal(run) * 10 + digit);
                any = true;
                value = mul_ten_saturated(value).saturating_add(digit);
                j += 1;
            }
            if any {
                return Some(value);
            }
            return None;
        }
        i += 1;
    }
    None
}

/// Whether two heads differ in the case of letters alone.
pub open spec fn same_but_for_case(a: Seq<u8>, b: Seq<u8>) -> bool {
    &&& a.len() == b.len()
    &&& forall|i: int| 0 <= i < a.len() ==> lower(#[trigger] a[i]) == lower(b[i])
}

proof fn lemma_find_any_case(a: Seq<u8>, b: Seq<u8>, from: int, needle: Seq<u8>)
    requires
        same_but_for_case(a, b),
    ensures
        find_lowered(a, from, needle) == find_lowered(b, from, needle),
        find_lowered(a, from, needle) matches Some(i) ==> 0 <= i && i + needle.len() <= a.len(),
    decreases a.len() - from,
{
    if 0 <= from && from + needle.len() <= a.len() {
        let x = a.subrange(from, from + needle.len());
        let y = b.subrange(from, from + needle.len());
        assert(equals_lowered(x, needle) == equals_lowered(y, needle)) by {
            assert forall|i: int| 0 <= i < x.len() implies lower(#[trigger] x[i]) == lower(y[i]) by {
                assert(x[i] == a[from + i]);
                assert(lower(a[from + i]) == lower(b[from + i]));
            }
            if equals_lowered(x, needle) {
                assert forall|i: int| 0 <= i < y.len() implies lower(#[trigger] y[i])
                    == needle[i] by {
                    assert(lower(x[i]) == needle[i]);
                }
            }
        }
        if from < a.len() && !equals_lowered(x, needle) {
            lemma_find_any_case(a, b, from + 1, needle);
        }
    }
}

proof fn lemma_blanks_any_case(a: Seq<u8>, b: Seq<u8>, p: int)
    requires
        same_but_for_case(a, b),
        0 <= p <= a.len(),
    ensures
        after_blanks(a, p) == after_blanks(b, p),
        p <= after_blanks(a, p) <= a.len(),
    decreases a.len() - p,
{
    if p < a.len() {
        assert(lower(a[p]) == lower(b[p]));
        if is_blank(a[p]) {
            lemma_blanks_any_case(a, b, p + 1);
        }
    }
}

proof fn lemma_digits_any_case(a: Seq<u8>, b: Seq<u8>, p: int)
    requires
        same_but_for_case(a, b),
        0 <= p <= a.len(),
    ensures
        after_digits(a, p) == after_digits(b, p),
        p <= after_digits(a, p) <= a.len(),
        forall|i: int| p <= i < after_digits(a, p) ==> a[i] == b[i],
    decreases a.len() - p,
{
    if p < a.len() {
        assert(lower(a[p]) == lower(b[p]));
        if is_digit(a[p]) {
            lemma_digits_any_case(a, b, p + 1);
        }
    }
}

/// The case of letters does not matter to the length that a head declares.
pub proof fn law_case_does_not_matter(a: Seq<u8>, b: Seq<u8>)
    requires
        same_but_for_case(a, b),
    ensures
        declared_length(a) == declared_length(b),
{
    let needle = "content-length:".spec_bytes();
    lemma_find_any_case(a, b, 0, needle);
    if let Some(i) = find_lowered(a, 0, needle) {
        let p = i + needle.len();
        lemma_blanks_any_case(a, b, p);
        let q = after_blanks(a, p);
        lemma_digits_any_case(a, b, q);
        assert(digits_at(a, q) =~= digits_at(b, q));
    }
}

/// Whether the head goes on behind the first length that it declares.
pub open spec fn length_is_whole(head: Seq<u8>) -> bool {
    let needle = "content-length:".spec_bytes();
    find_lowered(head, 0, needle) matches Some(i) && after_digits(
        head,
        after_blanks(head, i + needle.len()),
    ) < head.len()
}

proof fn lemma_found_stays(head: Seq<u8>, more: Seq<u8>, from: int, needle: Seq<u8>)
    requires
        find_lowered(head, from, needle) is Some,
    ensures
        find_lowered(head + more, from, needle) == find_lowered(head, from, needle),
        0 <= find_lowered(head, from, needle)->Some_0,
    decreases head.len() - from,
{
    assert((head + more).subrange(from, from + needle.len()) =~= head.subrange(
        from,
        from + needle.len(),
    ));
    if !equals_lowered(head.subrange(from, from + needle.len()), needle) {
        lemma_found_stays(head, more, from + 1, needle);
    }
}

proof fn lemma_blanks_stay(head: Seq<u8>, more: Seq<u8>, p: int)
    requires
        0 <= p,
        after_blanks(head, p) < head.len(),
    ensures
        after_blanks(head + more, p) == after_blanks(head, p),
        p <= after_blanks(head, p),
    decreases head.len() - p,
{
    if p < head.len() {
        assert((head + more)[p] == head[p]);
        if is_blank(head[p]) {
            lemma_blanks_stay(head, more, p + 1);
        }
    }
}

/// The first length that a head declares stands, whatever follows it: another one does not
/// count.
pub proof fn law_first_length_stands(head: Seq<u8>, more: Seq<u8>)
    requires
        length_is_whole(head),
    ensures
        declared_length(head + more) == declared_length(head),
{
    let needle = "content-length:".spec_bytes();
    lemma_found_stays(head, more, 0, needle);
    let p = find_lowered(head, 0, needle)->Some_0 + needle.len();
    let q = after_blanks(head, p);
    crate::grammar::lemma_after_digits(head, q);
    lemma_blanks_stay(head, more, p);
    crate::payload_laws::lemma_digits_stay(head, more, q);
    assert(digits_at(head + more, q) =~= digits_at(head, q));
}

/// Ten times a number, or the largest number that fits.
fn mul_ten_saturated(n: usize) -> (r: usize)
    ensures
        r == saturated(n * 10),
{
    if n > usize::MAX / 10 {
        usize::MAX
    } else {
        n * 10
    }
}

// ---------------------------------------------------------------------------
// The responses.
// ---------------------------------------------------------------------------

/// The head of a response that carries JSON, with the length that it declares.
pub open spec fn json_head(length: Seq<char>) -> Seq<char> {
    "HTTP/1.1 200 OK\r\nContent-Type: application/json\r\nContent-Length: "@ + length
        + "\r\nConnection: close\r\n\r\n"@
}

/// The share of frauds among five neighbours, as it is written.
pub open spec fn score_text(frauds: int) -> Seq<char> {
    if frauds <= 0 {
        "0.0"@
    } else if frauds == 1 {
        "0.2"@
    } else if frauds == 2 {
        "0.4"@
    } else if frauds == 3 {
        "0.6"@
    } else if frauds == 4 {
        "0.8"@
    } else {
        "1.0"@
    }
}

/// What is said of a transaction with so many frauds among its five neighbours.
pub open spec fn score_body(frauds: int) -> Seq<char> {
    if frauds < REFUSED_FROM {
        "{\"approved\":true,\"fraud_score\":"@ + score_text(frauds) + "}"@
    } else {
        "{\"approved\":false,\"fraud_score\":"@ + score_text(frauds) + "}"@
    }
}

/// The length that the response with `score_body(frauds)` declares.
pub open spec fn score_length(frauds: int) -> Seq<char> {
    if frauds < REFUSED_FROM {
        "35"@
    } else {
        "36"@
    }
}

/// The response to a transaction with so many frauds among its five neighbours; more
/// than five count as five.
pub fn fraud_response(frauds: usize) -> (r: &'static str)
    ensures
        r@ == json_head(score_length(frauds as int)) + score_body(frauds as int),
{
    proof {
        reveal_strlit("HTTP/1.1 200 OK\r\nContent-Type: application/json\r\nContent-Length: ");
        reveal_strlit("\r\nConnection: close\r\n\r\n");
        reveal_strlit("{\"approved\":true,\"fraud_score\":");
        reveal_strlit("{\"approved\":false,\"fraud_score\":");
        reveal_strlit("}");
        reveal_strlit("35");
        reveal_strlit("36");
        reveal_strlit("0.0");
        reveal_strlit("0.2");
        reveal_strlit("0.4");
        reveal_strlit("0.6");
        reveal_strlit("0.8");
        reveal_strlit("1.0");
    }
    if frauds == 0 {
        let r = "HTTP/1.1 200 OK\r\nContent-Type: application/json\r\nContent-Length: 35\r\nConnection: close\r\n\r\n{\"approved\":true,\"fraud_score\":0.0}";
        proof {
            reveal_strlit("HTTP/1.1 200 OK\r\nContent-Type: application/json\r\nContent-Length: 35\r\nConnection: close\r\n\r\n{\"approved\":true,\"fraud_score\":0.0}");
        }
        assert(r@ =~= json_head(score_length(frauds as int)) + score_body(frauds as int));
        r
    } else if frauds == 1 {
        let r = "HTTP/1.1 200 OK\r\nContent-Type: application/json\r\nContent-Length: 35\r\nConnection: close\r\n\r\n{\"approved\":true,\"fraud_score\":0.2}";
        proof {
            reveal_strlit("HTTP/1.1 200 OK\r\nContent-Type: application/json\r\nContent-Length: 35\r\nConnection: close\r\n\r\n{\"approved\":true,\"fraud_score\":0.2}");
        }
        assert(r@ =~= json_head(score_length(frauds as int)) + score_body(frauds as int));
        r
    } else if frauds == 2 {
        let r = "HTTP/1.1 200 OK\r\nContent-Type: application/json\r\nContent-Length: 35\r\nConnection: close\r\n\r\n{\"approved\":true,\"fraud_score\":0.4}";
        proof {
            reveal_strlit("HTTP/1.1 200 OK\r\nContent-Type: application/json\r\nContent-Length: 35\r\nConnection: close\r\n\r\n{\"approved\":true,\"fraud_score\":0.4}");
        }
        assert(r@ =~= json_head(score_length(frauds as int)) + score_body(frauds as int));
        r
    } else if frauds == 3 {
        let r = "HTTP/1.1 200 OK\r\nContent-Type: application/json\r\nContent-Length: 36\r\nConnection: close\r\n\r\n{\"approved\":false,\"fraud_score\":0.6}";
        proof {
            reveal_strlit("HTTP/1.1 200 OK\r\nContent-Type: application/json\r\nContent-Length: 36\r\nConnection: close\r\n\r\n{\"approved\":false,\"fraud_score\":0.6}");
        }
        assert(r@ =~= json_head(score_length(frauds as int)) + score_body(frauds as int));
        r
    } else if frauds == 4 {
        let r = "HTTP/1.1 200 OK\r\nContent-Type: application/json\r\nContent-Length: 36\r\nConnection: close\r\n\r\n{\"approved\":false,\"fraud_score\":0.8}";
        proof {
            reveal_strlit("HTTP/1.1 200 OK\r\nContent-Type: application/json\r\nContent-Length: 36\r\nConnection: close\r\n\r\n{\"approved\":false,\"fraud_score\":0.8}");
        }
        assert(r@ =~= json_head(score_length(frauds as int)) + score_body(frauds as int));
        r
    } else {
        let r = "HTTP/1.1 200 OK\r\nContent-Type: application/json\r\nContent-Length: 36\r\nConnection: close\r\n\r\n{\"approved\":false,\"fraud_score\":1.0}";
        proof {
            reveal_strlit("HTTP/1.1 200 OK\r\nContent-Type: application/json\r\nContent-Length: 36\r\nConnection: close\r\n\r\n{\"approved\":false,\"fraud_score\":1.0}");
        }
        assert(r@ =~= json_head(score_length(frauds as int)) + score_body(frauds as int));
        r
    }
}

/// The length that a scored response declares is that of its body.
pub proof fn law_score_length(frauds: int)
    ensures
        decimal(vstd::utf8::encode_utf8(score_length(frauds))) == score_body(frauds).len(),
{
    reveal_strlit("{\"approved\":true,\"fraud_score\":");
    reveal_strlit("{\"approved\":false,\"fraud_score\":");
    reveal_strlit("}");
    reveal_strlit("35");
    reveal_strlit("36");
    reveal_strlit("0.0");
    reveal_strlit("0.2");
    reveal_strlit("0.4");
    reveal_strlit("0.6");
    reveal_strlit("0.8");
    reveal_strlit("1.0");
    vstd::utf8::is_ascii_chars_encode_utf8("35"@);
    vstd::utf8::is_ascii_chars_encode_utf8("36"@);
    reveal_with_fuel(decimal, 3);
}

/// The score that is written is the share of frauds among five neighbours, and a
/// transaction is approved where it is under 0.6.
pub proof fn law_score_is_the_share(frauds: int)
    requires
        0 <= frauds <= 5,
    ensures
        ({
            let text = score_text(frauds);
            let tenths = (text[0] as int - '0' as int) * 10 + (text[2] as int - '0' as int);
            &&& text.len() == 3
            &&& text[1] == '.'
            &&& tenths * 5 == frauds * 10
            &&& frauds < REFUSED_FROM <==> tenths < 6
        }),
{
    reveal_strlit("0.0");
    reveal_strlit("0.2");
    reveal_strlit("0.4");
    reveal_strlit("0.6");
    reveal_strlit("0.8");
    reveal_strlit("1.0");
}

/// The body that says that the server is up.
pub open spec fn ready_body() -> Seq<char> {
    "{\"ok\":true,\"role\":\"api\"}"@
}

/// The response to `GET /ready` carries its body and declares the body's length.
pub proof fn law_ready_response()
    ensures
        READY_RESPONSE@ == json_head("24"@) + ready_body(),
        decimal("24".spec_bytes()) == ready_body().len(),
{
    reveal_strlit("HTTP/1.1 200 OK\r\nContent-Type: application/json\r\nContent-Length: ");
    reveal_strlit("\r\nConnection: close\r\n\r\n");
    reveal_strlit("24");
    reveal_strlit("{\"ok\":true,\"role\":\"api\"}");
    reveal_strlit(
        "HTTP/1.1 200 OK\r\nContent-Type: application/json\r\nContent-Length: 24\r\nConnection: close\r\n\r\n{\"ok\":true,\"role\":\"api\"}",
    );
    assert(READY_RESPONSE@ =~= json_head("24"@) + ready_body());
    vstd::utf8::is_ascii_chars_encode_utf8("24"@);
    reveal_with_fuel(decimal, 3);
}

// ---------------------------------------------------------------------------
// What a request asks for.
// ---------------------------------------------------------------------------

/// What is to be done about a request.
pub enum Errand {
    /// Say that the server is up.
    Ready,
    /// Score a transaction.
    Score(Transaction),
    /// Refuse the request.
    Refuse,
}

/// What a request asks for, when its head ends at `end`. The path alone decides about
/// `/ready`; a transaction is scored where the body describes one.
pub open spec fn errand(request: Seq<u8>, end: Option<int>) -> Errand {
    if stands_at(request, 0, "GET /ready ".spec_bytes()) {
        Errand::Ready
    } else if stands_at(request, 0, "POST /fraud-score ".spec_bytes()) {
        match end {
            Some(h) => match transaction_of(request.skip(h + 4)) {
                Some(t) => Errand::Score(t),
                None => Errand::Refuse,
            },
            None => Errand::Refuse,
        }
    } else {
        Errand::Refuse
    }
}

/// What a request asks for.
pub enum Request<'a> {
    Ready,
    Score(ParsedTransaction<'a>),
    Refuse,
}

impl<'a> Request<'a> {
    /// Whether this is the errand `e`.
    pub open spec fn is(&self, e: Errand) -> bool {
        match e {
            Errand::Ready => self is Ready,
            Errand::Score(t) => self matches Request::Score(x) && x.wf() && x@ == t,
            Errand::Refuse => self is Refuse,
        }
    }
}

/// Tells what a request asks for, when its head ends at `header_end`.
pub fn classify_request(data: &[u8], header_end: Option<usize>) -> (r: Request<'_>)
    requires
        header_end matches Some(h) ==> h + 4 <= data@.len(),
    ensures
        r.is(
            errand(
                data@,
                match header_end {
                    Some(h) => Some(h as int),
                    None => None,
                },
            ),
        ),
{
    if matches_at(data, 0, "GET /ready ".as_bytes()) {
        return Request::Ready;
    }
    if matches_at(data, 0, "POST /fraud-score ".as_bytes()) {
        return match header_end {
            Some(h) => handle_fraud_score_at(data, h),
            None => Request::Refuse,
        };
    }
    Request::Refuse
}

/// Reads the transaction behind the head that ends at `header_end`.
pub fn handle_fraud_score_at(buf: &[u8], header_end: usize) -> (r: Request<'_>)
    requires
        header_end + 4 <= buf@.len(),
    ensures
        r.is(
            match transaction_of(buf@.skip(header_end + 4)) {
                Some(t) => Errand::Score(t),
                None => Errand::Refuse,
            },
        ),
{
    assert(header_end + 4 <= buf.len());
    let body = slice_subrange(buf, header_end + 4, buf.len());
    assert(body@ =~= buf@.skip(header_end + 4));
    match parse_transaction(body) {
        Some(t) => Request::Score(t),
        None => Request::Refuse,
    }
}

/// Reads the transaction of a request whose head may not have ended.
pub fn handle_fraud_score(buf: &[u8]) -> (r: Request<'_>)
    ensures
        r.is(
            match head_end(buf@, 0) {
                Some(h) => match transaction_of(buf@.skip(h + 4)) {
                    Some(t) => Errand::Score(t),
                    None => Errand::Refuse,
                },
                None => Errand::Refuse,
            },
        ),
{
    match find_header_end(buf) {
        Some(h) => handle_fraud_score_at(buf, h),
        None => Request::Refuse,
    }
}

/// Tells what a request that was read in one go asks for; one that could not be read, or
/// did not fit, is refused.
pub fn classify_received(received: &[u8], was_read: bool) -> (r: Request<'_>)
    ensures
        was_read ==> r.is(errand(received@, head_end(received@, 0))),
        !was_read ==> r is Refuse,
{
    if was_read {
        classify_request(received, find_header_end(received))
    } else {
        Request::Refuse
    }
}

/// How the bytes of a response are found.
#[derive(Clone, Copy)]
pub enum ResponseKind {
    Ready,
    Static(&'static [u8]),
}

impl ResponseKind {
    /// The bytes of the response.
    pub open spec fn content(self) -> Seq<u8> {
        match self {
            ResponseKind::Ready => READY_RESPONSE.spec_bytes(),
            ResponseKind::Static(bytes) => bytes@,
        }
    }

    /// The bytes of the response.
    pub fn bytes(&self) -> (r: &'static [u8])
        ensures
            r@ == self.content(),
    {
        match self {
            ResponseKind::Ready => READY_RESPONSE.as_bytes(),
            ResponseKind::Static(bytes) => *bytes,
        }
    }
}

/// The response to an errand, when a transaction that it asks to score has `frauds`
/// frauds among its neighbours.
pub open spec fn reply(e: Errand, frauds: int) -> Seq<u8> {
    match e {
        Errand::Ready => READY_RESPONSE.spec_bytes(),
        Errand::Score(_) => vstd::utf8::encode_utf8(
            json_head(score_length(frauds)) + score_body(frauds),
        ),
        Errand::Refuse => BAD_REQUEST_RESPONSE.spec_bytes(),
    }
}

/// The response to a request, when a transaction that it asks to score has `frauds`
/// frauds among its neighbours.
pub fn respond(request: &Request<'_>, frauds: usize) -> (r: ResponseKind)
    ensures
        forall|e: Errand| request.is(e) ==> r.content() == reply(e, frauds as int),
        request is Score && frauds <= 5 ==> r.content() == vstd::utf8::encode_utf8(
            json_response(verdict(frauds as int)),
        ),
        request is Ready ==> r.content() == READY_RESPONSE.spec_bytes(),
        request is Refuse ==> r.content() == BAD_REQUEST_RESPONSE.spec_bytes(),
{
    proof {
        if frauds <= 5 {
            lemma_verdict(frauds as int);
        }
    }
    match request {
        Request::Ready => ResponseKind::Ready,
        Request::Score(_) => ResponseKind::Static(fraud_response(frauds).as_bytes()),
        Request::Refuse => ResponseKind::Static(BAD_REQUEST_RESPONSE.as_bytes()),
    }
}

/// A request for another path, one whose head has not ended, and one whose body describes
/// no transaction are refused, whatever else they hold; `GET /ready` never is.
pub proof fn law_refusals(request: Seq<u8>, end: Option<int>, frauds: int)
    ensures
        stands_at(request, 0, "GET /ready ".spec_bytes()) ==> reply(errand(request, end), frauds)
            == READY_RESPONSE.spec_bytes(),
        !stands_at(request, 0, "GET /ready ".spec_bytes()) && (!stands_at(
            request,
            0,
            "POST /fraud-score ".spec_bytes(),
        ) || end is None || transaction_of(request.skip(end->Some_0 + 4)) is None) ==> reply(
            errand(request, end),
            frauds,
        ) == BAD_REQUEST_RESPONSE.spec_bytes(),
{
}

/// The response to what is not understood says that the request was bad, and has no body:
/// the empty line that ends its head ends it.
pub proof fn law_bad_request_response()
    ensures
        BAD_REQUEST_RESPONSE.spec_bytes() == "HTTP/1.1 400 Bad Request\r\n".spec_bytes()
            + "Content-Length: 0\r\n".spec_bytes() + "Connection: close\r\n\r\n".spec_bytes(),
{
    reveal_strlit(
        "HTTP/1.1 400 Bad Request\r\nContent-Length: 0\r\nConnection: close\r\n\r\n",
    );
    reveal_strlit("HTTP/1.1 400 Bad Request\r\n");
    reveal_strlit("Content-Length: 0\r\n");
    reveal_strlit("Connection: close\r\n\r\n");
    vstd::utf8::is_ascii_chars_encode_utf8(BAD_REQUEST_RESPONSE@);
    vstd::utf8::is_ascii_chars_encode_utf8("HTTP/1.1 400 Bad Request\r\n"@);
    vstd::utf8::is_ascii_chars_encode_utf8("Content-Length: 0\r\n"@);
    vstd::utf8::is_ascii_chars_encode_utf8("Connection: close\r\n\r\n"@);
    assert(BAD_REQUEST_RESPONSE.spec_bytes() =~= "HTTP/1.1 400 Bad Request\r\n".spec_bytes()
        + "Content-Length: 0\r\n".spec_bytes() + "Connection: close\r\n\r\n".spec_bytes());
}

// ---------------------------------------------------------------------------
// When a request is complete.
// ---------------------------------------------------------------------------

/// The length of the body that follows a head; none is declared where it is missing.
pub open spec fn body_length(head: Seq<u8>) -> int {
    match declared_length(head) {
        Some(n) => n as int,
        None => 0,
    }
}

/// Whether the head has ended and the body that it declares has arrived.
pub open spec fn is_complete(received: Seq<u8>) -> bool {
    match head_end(received, 0) {
        Some(h) => received.len() >= h + 4 + body_length(received.take(h)),
        None => false,
    }
}

/// A request that is complete stays complete.
pub proof fn law_complete_stays(received: Seq<u8>, more: Seq<u8>)
    requires
        is_complete(received),
    ensures
        is_complete(received + more),
{
    law_head_end_stays(received, more);
    lemma_head_end(received, 0);
    let h = head_end(received, 0)->Some_0;
    assert((received + more).take(h) =~= received.take(h));
}

/// How a request that is read in one go stands.
#[derive(Clone, Copy, PartialEq, Eq, Structural)]
pub enum Progress {
    Complete,
    TooLarge,
    NeedMore,
}

/// Tells whether reading goes on, when `received` has arrived and `capacity` bytes fit.
pub fn request_progress(received: &[u8], capacity: usize) -> (r: Progress)
    ensures
        r == if is_complete(received@) {
            Progress::Complete
        } else if received@.len() == capacity {
            Progress::TooLarge
        } else {
            Progress::NeedMore
        },
{
    if let Some(h) = find_header_end(received) {
        let head = slice_subrange(received, 0, h);
        assert(head@ =~= received@.take(h as int));
        let length = match parse_content_length(head) {
            Some(n) => n,
            None => 0,
        };
        if received.len() - h - 4 >= length {
            return Progress::Complete;
        }
    }
    if received.len() == capacity {
        Progress::TooLarge
    } else {
        Progress::NeedMore
    }
}

// ---------------------------------------------------------------------------
// What is answered.
// ---------------------------------------------------------------------------

/// The digit that stands for `n`.
pub open spec fn digit(n: int) -> char {
    ('0' as int + n) as char
}

/// The JSON that says that `frauds` of five neighbours are frauds: the share of frauds, in
/// tenths behind the point, and that the transaction is approved where it is under 0.6.
pub open spec fn verdict(frauds: int) -> Seq<char> {
    (if 10 * frauds < 6 * 5 {
        "{\"approved\":true,\"fraud_score\":"@
    } else {
        "{\"approved\":false,\"fraud_score\":"@
    }) + seq![digit(frauds * 10 / 5 / 10), '.', digit(frauds * 10 / 5 % 10)] + "}"@
}

/// A response with a JSON body of between 10 and 99 characters, whose length its head
/// declares.
pub open spec fn json_response(body: Seq<char>) -> Seq<char> {
    "HTTP/1.1 200 OK\r\nContent-Type: application/json\r\nContent-Length: "@ + seq![
        digit(body.len() as int / 10),
        digit(body.len() as int % 10),
    ] + "\r\nConnection: close\r\n\r\n"@ + body
}

/// Every transaction that is scored is answered with the share of frauds among its five
/// neighbours, and approved exactly where it is under 0.6; more than five count as five.
pub proof fn law_scores_are_answered(t: Transaction, frauds: int)
    requires
        0 <= frauds,
    ensures
        frauds <= 5 ==> reply(Errand::Score(t), frauds) == vstd::utf8::encode_utf8(
            json_response(verdict(frauds)),
        ),
        frauds > 5 ==> reply(Errand::Score(t), frauds) == vstd::utf8::encode_utf8(
            json_response(verdict(5)),
        ),
{
    lemma_verdict(if frauds <= 5 {
        frauds
    } else {
        5
    });
    reveal_strlit("{\"approved\":false,\"fraud_score\":");
}

proof fn lemma_verdict(frauds: int)
    requires
        0 <= frauds <= 5,
    ensures
        json_head(score_length(frauds)) + score_body(frauds) == json_response(verdict(frauds)),
{
    reveal_strlit("{\"approved\":true,\"fraud_score\":");
    reveal_strlit("{\"approved\":false,\"fraud_score\":");
    reveal_strlit("}");
    reveal_strlit("35");
    reveal_strlit("36");
    reveal_strlit("0.0");
    reveal_strlit("0.2");
    reveal_strlit("0.4");
    reveal_strlit("0.6");
    reveal_strlit("0.8");
    reveal_strlit("1.0");
    assert(score_text(frauds) =~= seq![
        digit(frauds * 10 / 5 / 10),
        '.',
        digit(frauds * 10 / 5 % 10),
    ]);
    assert(score_body(frauds) =~= verdict(frauds));
    let body = verdict(frauds);
    assert(score_length(frauds) =~= seq![digit(body.len() as int / 10), digit(body.len() as int % 10)]);
    assert(json_head(score_length(frauds)) + score_body(frauds) =~= json_response(
        verdict(frauds),
    ));
}

/// What begins with `GET /ready ` or `POST /fraud-score ` is told apart.
proof fn lemma_first_words(rest: Seq<u8>)
    ensures
        stands_at("GET /ready ".spec_bytes() + rest, 0, "GET /ready ".spec_bytes()),
        stands_at("POST /fraud-score ".spec_bytes() + rest, 0, "POST /fraud-score ".spec_bytes()),
        !stands_at("POST /fraud-score ".spec_bytes() + rest, 0, "GET /ready ".spec_bytes()),
{
    let get = "GET /ready ".spec_bytes();
    let post = "POST /fraud-score ".spec_bytes();
    let request = post + rest;
    assert((get + rest).subrange(0, get.len() as int) =~= get);
    assert(request.subrange(0, post.len() as int) =~= post);
    lemma_first_bytes();
    if stands_at(request, 0, get) {
        assert(request.subrange(0, get.len() as int)[0] == get[0]);
        assert(request[0] == post[0]);
    }
}

proof fn lemma_first_bytes()
    ensures
        "GET /ready ".spec_bytes().len() > 0,
        "GET /ready ".spec_bytes()[0] == 0x47,
        "POST /fraud-score ".spec_bytes().len() > 0,
        "POST /fraud-score ".spec_bytes()[0] == 0x50,
{
    reveal_strlit("GET /ready ");
    reveal_strlit("POST /fraud-score ");
    vstd::utf8::is_ascii_chars_encode_utf8("GET /ready "@);
    vstd::utf8::is_ascii_chars_encode_utf8("POST /fraud-score "@);
}

/// `GET /ready` gets the ready response, whatever follows.
pub proof fn law_ready_is_answered(rest: Seq<u8>, end: Option<int>, frauds: int)
    ensures
        reply(errand("GET /ready ".spec_bytes() + rest, end), frauds)
            == READY_RESPONSE.spec_bytes(),
{
    lemma_first_words(rest);
}

/// A request that posts to `/fraud-score` and whose body, behind the empty line at `h`,
/// describes a transaction gets that transaction's score.
pub proof fn law_posts_are_scored(rest: Seq<u8>, h: int, frauds: int)
    requires
        0 <= frauds <= 5,
        transaction_of(("POST /fraud-score ".spec_bytes() + rest).skip(h + 4)) is Some,
    ensures
        reply(errand("POST /fraud-score ".spec_bytes() + rest, Some(h)), frauds)
            == vstd::utf8::encode_utf8(json_response(verdict(frauds))),
{
    let request = "POST /fraud-score ".spec_bytes() + rest;
    lemma_first_words(rest);
    let t = transaction_of(request.skip(h + 4))->Some_0;
    assert(errand(request, Some(h)) == Errand::Score(t));
    law_scores_are_answered(t, frauds);
}

/// The head ends with the first empty line: carriage return and line feed, twice.
pub proof fn law_head_ends_with_the_first_empty_line(s: Seq<u8>, i: int)
    requires
        0 <= i,
        i + 4 <= s.len(),
    ensures
        head_end(s, 0) == Some(i) <==> (s[i] == 13 && s[i + 1] == 10 && s[i + 2] == 13 && s[i + 3]
            == 10 && forall|j: int|
            0 <= j < i ==> !(#[trigger] s[j] == 13 && s[j + 1] == 10 && s[j + 2] == 13 && s[j + 3]
                == 10)),
        head_end(s, 0) is None ==> !(s[i] == 13 && s[i + 1] == 10 && s[i + 2] == 13 && s[i + 3]
            == 10),
{
    lemma_head_end(s, 0);
    if let Some(k) = head_end(s, 0) {
        assert(ends_head(s, k));
        if k < i {
            assert(s[k] == 13);
        }
        if i < k {
            assert(!ends_head(s, i));
        }
        assert forall|j: int| 0 <= j < k implies !(#[trigger] s[j] == 13 && s[j + 1] == 10 && s[j
            + 2] == 13 && s[j + 3] == 10) by {
            assert(!ends_head(s, j));
        }
    } else {
        assert(!ends_head(s, i));
    }
}

/// A request is complete when its head has ended and as many bytes have followed as the head
/// declares, and none where it declares nothing.
pub proof fn law_when_requests_are_complete(received: Seq<u8>)
    ensures
        head_end(received, 0) is None ==> !is_complete(received),
        head_end(received, 0) matches Some(h) ==> {
            &&& declared_length(received.take(h)) is None ==> is_complete(received)
            &&& declared_length(received.take(h)) matches Some(n) ==> (is_complete(received)
                <==> received.len() - (h + 4) >= n)
        },
{
    lemma_head_end(received, 0);
}

/// Whether `content-length:` stands at `i`, each letter in upper or lower case.
pub open spec fn names_length(s: Seq<u8>, i: int) -> bool {
    let name = "content-length:".spec_bytes();
    &&& 0 <= i
    &&& i + name.len() <= s.len()
    &&& forall|k: int|
        0 <= k < name.len() ==> #[trigger] s[i + k] == name[k] || (0x61 <= name[k] <= 0x7a && s[i
            + k] == name[k] - 0x20)
}

proof fn lemma_names_length(s: Seq<u8>, i: int)
    requires
        0 <= i,
        i + "content-length:".spec_bytes().len() <= s.len(),
    ensures
        names_length(s, i) <==> equals_lowered(
            s.subrange(i, i + "content-length:".spec_bytes().len()),
            "content-length:".spec_bytes(),
        ),
{
    let name = "content-length:".spec_bytes();
    let part = s.subrange(i, i + name.len());
    lemma_name_is_lowered();
    assert forall|k: int| 0 <= k < name.len() implies #[trigger] part[k] == s[i + k] by {}
    if equals_lowered(part, name) {
        assert forall|k: int| 0 <= k < name.len() implies #[trigger] s[i + k] == name[k] || (0x61
            <= name[k] <= 0x7a && s[i + k] == name[k] - 0x20) by {
            assert(lower(part[k]) == name[k]);
        }
    }
    if names_length(s, i) {
        assert forall|k: int| 0 <= k < part.len() implies lower(#[trigger] part[k])
            == name[k] by {
            assert(s[i + k] == part[k]);
            assert(!(0x41 <= name[k] <= 0x5a));
        }
    }
}

proof fn lemma_name_is_lowered()
    ensures
        "content-length:".spec_bytes().len() == 15,
        forall|k: int|
            0 <= k < 15 ==> !(0x41 <= #[trigger] "content-length:".spec_bytes()[k] <= 0x5a),
{
    reveal_strlit("content-length:");
    vstd::utf8::is_ascii_chars_encode_utf8("content-length:"@);
}

proof fn lemma_first_name(s: Seq<u8>, from: int, i: int)
    requires
        0 <= from <= i,
        names_length(s, i),
        forall|j: int| from <= j < i ==> !#[trigger] names_length(s, j),
    ensures
        find_lowered(s, from, "content-length:".spec_bytes()) == Some(i),
    decreases i - from,
{
    lemma_name_is_lowered();
    lemma_names_length(s, from);
    if from < i {
        assert(!names_length(s, from));
        lemma_first_name(s, from + 1, i);
    }
}

proof fn lemma_no_name(s: Seq<u8>, from: int)
    requires
        0 <= from,
        forall|j: int| from <= j ==> !#[trigger] names_length(s, j),
    ensures
        find_lowered(s, from, "content-length:".spec_bytes()) is None,
    decreases s.len() - from,
{
    lemma_name_is_lowered();
    if from + 15 <= s.len() {
        lemma_names_length(s, from);
        assert(!names_length(s, from));
        lemma_no_name(s, from + 1);
    }
}

proof fn lemma_blanks_end(s: Seq<u8>, p: int, q: int)
    requires
        0 <= p <= q <= s.len(),
        forall|i: int|
            p <= i < q ==> #[trigger] s[i] == 0x20 || s[i] == 0x09 || s[i] == 0x0a || s[i] == 0x0c
                || s[i] == 0x0d,
        q < s.len() ==> s[q] != 0x20 && s[q] != 0x09 && s[q] != 0x0a && s[q] != 0x0c && s[q] != 0x0d,
    ensures
        after_blanks(s, p) == q,
    decreases q - p,
{
    if p < q {
        assert(is_blank(s[p]));
        lemma_blanks_end(s, p + 1, q);
    }
}

pub proof fn lemma_digits_end(s: Seq<u8>, p: int, q: int)
    requires
        0 <= p <= q <= s.len(),
        forall|i: int| p <= i < q ==> 0x30 <= #[trigger] s[i] <= 0x39,
        q < s.len() ==> !(0x30 <= s[q] <= 0x39),
    ensures
        after_digits(s, p) == q,
    decreases q - p,
{
    if p < q {
        assert(is_digit(s[p]));
        lemma_digits_end(s, p + 1, q);
    }
}

/// The length that a head declares is the number behind the first `content-length:`, in
/// whatever case it stands and whatever blanks follow it; a number that does not fit counts
/// as the largest that does. A head without it declares none.
pub proof fn law_declared_lengths_are_read(head: Seq<u8>, i: int, p: int, q: int)
    requires
        names_length(head, i),
        forall|j: int| 0 <= j < i ==> !#[trigger] names_length(head, j),
        i + 15 <= p < q <= head.len(),
        forall|j: int|
            i + 15 <= j < p ==> #[trigger] head[j] == 0x20 || head[j] == 0x09 || head[j] == 0x0a
                || head[j] == 0x0c || head[j] == 0x0d,
        forall|j: int| p <= j < q ==> 0x30 <= #[trigger] head[j] <= 0x39,
        q < head.len() ==> !(0x30 <= head[q] <= 0x39),
    ensures
        declared_length(head) is Some,
        decimal(head.subrange(p, q)) <= usize::MAX ==> declared_length(head)->Some_0 == decimal(
            head.subrange(p, q),
        ),
        decimal(head.subrange(p, q)) > usize::MAX ==> declared_length(head)->Some_0 == usize::MAX,
{
    lemma_name_is_lowered();
    lemma_first_name(head, 0, i);
    assert(0x30 <= head[p] <= 0x39);
    lemma_blanks_end(head, i + 15, p);
    lemma_digits_end(head, p, q);
    let digits = head.subrange(p, q);
    assert forall|j: int| 0 <= j < digits.len() implies 0x30 <= #[trigger] digits[j] <= 0x39 by {
        assert(digits[j] == head[p + j]);
    }
    crate::grammar::lemma_decimal_sign(digits);
}

/// A head that nowhere names a length declares none.
pub proof fn law_no_length_is_made_up(head: Seq<u8>)
    requires
        forall|j: int| 0 <= j ==> !#[trigger] names_length(head, j),
    ensures
        declared_length(head) is None,
{
    lemma_no_name(head, 0);
}

} // verus!
