//! How a document is written out, byte for byte, and that the text is read as the document.
use vstd::prelude::*;
use vstd::string::StringSliceAdditionalSpecFns;

verus! {

use crate::bytes::{is_digit, stands_at};
use crate::documents::{
    closed, end_of, end_of_elements, end_of_members, is_text_of, quotable, transaction_in,
    writes_text, Json,
};
use crate::grammar::{
    after_byte, after_digits, after_fraction, after_minus, after_sign, after_space,
    exponent_mark, holds, is_numeral, is_space, transaction_of,
};

/// A document written out, with `pad` wherever whitespace may stand inside it, and with `last`
/// behind the last item of every array and every object.
pub open spec fn written(x: Json, pad: Seq<u8>, last: Seq<u8>) -> Seq<u8>
    decreases x, 0nat,
{
    match x {
        Json::Text(raw) => seq![0x22u8] + raw + seq![0x22u8],
        Json::Numeral(n) => n,
        Json::True => seq![0x74u8, 0x72, 0x75, 0x65],
        Json::False => seq![0x66u8, 0x61, 0x6c, 0x73, 0x65],
        Json::Null => seq![0x6eu8, 0x75, 0x6c, 0x6c],
        Json::Array(xs) => seq![0x5bu8] + pad + if xs.len() == 0 {
            seq![0x5du8]
        } else {
            written_elements(xs, 0, pad, last)
        },
        Json::Object(ms) => seq![0x7bu8] + pad + if ms.len() == 0 {
            seq![0x7du8]
        } else {
            written_members(ms, 0, pad, last)
        },
    }
}

/// The elements of an array from the `i`th on, and the closing bracket.
pub open spec fn written_elements(xs: Seq<Json>, i: int, pad: Seq<u8>, last: Seq<u8>) -> Seq<u8>
    decreases xs, xs.len() - i,
{
    if !(0 <= i < xs.len()) {
        Seq::empty()
    } else if i + 1 == xs.len() {
        written(xs[i], pad, last) + last + seq![0x5du8]
    } else {
        written(xs[i], pad, last) + pad + seq![0x2cu8] + pad
            + written_elements(xs, i + 1, pad, last)
    }
}

/// A member's key, and the colon behind it.
pub open spec fn written_key(key: Seq<u8>, pad: Seq<u8>) -> Seq<u8> {
    seq![0x22u8] + key + seq![0x22u8] + pad + seq![0x3au8] + pad
}

/// The members of an object from the `i`th on, and the closing brace.
pub open spec fn written_members(
    ms: Seq<(Seq<u8>, Json)>,
    i: int,
    pad: Seq<u8>,
    last: Seq<u8>,
) -> Seq<u8>
    decreases ms, ms.len() - i,
{
    if !(0 <= i < ms.len()) {
        Seq::empty()
    } else if i + 1 == ms.len() {
        written_key(ms[i].0, pad) + written(ms[i].1, pad, last) + last + seq![0x7du8]
    } else {
        written_key(ms[i].0, pad) + written(ms[i].1, pad, last) + pad + seq![0x2cu8] + pad
            + written_members(ms, i + 1, pad, last)
    }
}

/// Whether `d` is a run of digits.
pub open spec fn is_run(d: Seq<u8>) -> bool {
    d.len() > 0 && forall|i: int| 0 <= i < d.len() ==> 0x30 <= #[trigger] d[i] <= 0x39
}

/// Whether `f` is empty, or a point with digits behind it.
pub open spec fn is_fraction(f: Seq<u8>) -> bool {
    f.len() == 0 || (f[0] == 0x2e && is_run(f.skip(1)))
}

/// Whether `e` is empty, or an exponent: the letter, a sign or none, and digits.
pub open spec fn is_exponent(e: Seq<u8>) -> bool {
    ||| e.len() == 0
    ||| (e[0] == 0x65 || e[0] == 0x45) && is_run(e.skip(1))
    ||| (e[0] == 0x65 || e[0] == 0x45) && e.len() > 1 && (e[1] == 0x2b || e[1] == 0x2d) && is_run(
        e.skip(2),
    )
}

/// Whether `n` is a number as JSON writes it: a minus sign or none, digits, and a fraction and
/// an exponent where there are any.
pub open spec fn is_written_number(n: Seq<u8>) -> bool {
    exists|whole: Seq<u8>, fraction: Seq<u8>, exponent: Seq<u8>|
        #![trigger is_run(whole), is_fraction(fraction), is_exponent(exponent)]
        is_run(whole) && is_fraction(fraction) && is_exponent(exponent) && (n == whole + fraction
            + exponent || n == seq![0x2du8] + whole + fraction + exponent)
}

/// Whether a document can be written: its numbers are numbers, and its strings can stand
/// between quotes.
pub open spec fn is_writable(x: Json) -> bool
    decreases x,
{
    match x {
        Json::Text(raw) => quotable(raw),
        Json::Numeral(n) => is_written_number(n),
        Json::Array(xs) => forall|i: int| 0 <= i < xs.len() ==> is_writable(#[trigger] xs[i]),
        Json::Object(ms) => forall|i: int|
            0 <= i < ms.len() ==> quotable((#[trigger] ms[i]).0) && is_writable(ms[i].1),
        _ => true,
    }
}

/// Whether all bytes are whitespace.
pub open spec fn is_whitespace(pad: Seq<u8>) -> bool {
    forall|i: int|
        0 <= i < pad.len() ==> #[trigger] pad[i] == 0x20 || pad[i] == 0x09 || pad[i] == 0x0a
            || pad[i] == 0x0d
}

/// Whether `w` stands in `s` at `p`.
spec fn here(s: Seq<u8>, p: int, w: Seq<u8>) -> bool {
    &&& 0 <= p
    &&& p + w.len() <= s.len()
    &&& forall|i: int| 0 <= i < w.len() ==> s[p + i] == #[trigger] w[i]
}

proof fn lemma_here(s: Seq<u8>, p: int, a: Seq<u8>, b: Seq<u8>)
    requires
        here(s, p, a + b),
    ensures
        here(s, p, a),
        here(s, p + a.len(), b),
{
    assert forall|i: int| 0 <= i < a.len() implies s[p + i] == #[trigger] a[i] by {
        assert((a + b)[i] == a[i]);
    }
    assert forall|i: int| 0 <= i < b.len() implies s[p + a.len() + i] == #[trigger] b[i] by {
        assert((a + b)[a.len() + i] == b[i]);
    }
}

proof fn lemma_here_stands(s: Seq<u8>, p: int, w: Seq<u8>)
    requires
        here(s, p, w),
    ensures
        stands_at(s, p, w),
        s.subrange(p, p + w.len()) == w,
{
    assert(s.subrange(p, p + w.len()) =~= w);
}

/// Whitespace is passed over up to what is none.
proof fn lemma_pad(s: Seq<u8>, p: int, pad: Seq<u8>)
    requires
        here(s, p, pad),
        is_whitespace(pad),
        p + pad.len() < s.len() ==> !is_space(s[p + pad.len()]),
    ensures
        after_space(s, p) == p + pad.len(),
    decreases pad.len(),
{
    if pad.len() > 0 {
        let rest = pad.skip(1);
        assert(s[p + 0] == pad[0]);
        assert forall|i: int| 0 <= i < rest.len() implies s[p + 1 + i] == #[trigger] rest[i] by {
            assert(s[p + (i + 1)] == pad[i + 1]);
        }
        assert forall|i: int| 0 <= i < rest.len() implies #[trigger] rest[i] == 0x20 || rest[i]
            == 0x09 || rest[i] == 0x0a || rest[i] == 0x0d by {
            assert(rest[i] == pad[i + 1]);
        }
        lemma_pad(s, p + 1, rest);
    }
}

proof fn lemma_padded_byte(s: Seq<u8>, p: int, pad: Seq<u8>, b: u8)
    requires
        here(s, p, pad + seq![b]),
        is_whitespace(pad),
        !is_space(b),
    ensures
        after_byte(s, p, b) == Some(p + pad.len() + 1),
{
    lemma_here(s, p, pad, seq![b]);
    assert(s[p + pad.len() + 0] == seq![b][0]);
    lemma_pad(s, p, pad);
}

/// Whether all bytes are digits.
pub open spec fn are_digits(d: Seq<u8>) -> bool {
    forall|i: int| 0 <= i < d.len() ==> 0x30 <= #[trigger] d[i] <= 0x39
}

/// Whether `f` is empty, or a point with digits behind it or none.
pub open spec fn is_point(f: Seq<u8>) -> bool {
    f.len() == 0 || (f[0] == 0x2e && are_digits(f.skip(1)))
}

/// Whether `n` is made of these parts: a minus sign or none, digits, a point with digits, and
/// an exponent. A digit stands before the point or behind it.
pub open spec fn is_made_of(
    n: Seq<u8>,
    whole: Seq<u8>,
    fraction: Seq<u8>,
    exponent: Seq<u8>,
) -> bool {
    &&& are_digits(whole)
    &&& is_point(fraction)
    &&& is_exponent(exponent)
    &&& whole.len() > 0 || fraction.len() > 1
    &&& n == whole + fraction + exponent || n == seq![0x2du8] + whole + fraction + exponent
}

/// Digits with a point before, among or behind them are a numeral, with a minus sign or
/// without one, with an exponent or without one.
pub proof fn law_what_is_a_numeral(
    n: Seq<u8>,
    whole: Seq<u8>,
    fraction: Seq<u8>,
    exponent: Seq<u8>,
)
    requires
        is_made_of(n, whole, fraction, exponent),
    ensures
        is_numeral(n),
{
    let start: int = if n == whole + fraction + exponent {
        0
    } else {
        1
    };
    let point = start + whole.len();
    let mantissa = point + fraction.len();
    if whole.len() > 0 {
        assert(n[start] == whole[0]);
    } else {
        assert(n[start] == fraction[0]);
    }
    assert(after_minus(n, 0) == start);
    assert forall|i: int| start <= i < point implies 0x30 <= #[trigger] n[i] <= 0x39 by {
        assert(n[i] == whole[i - start]);
    }
    if fraction.len() > 0 {
        assert(n[point] == fraction[0]);
    } else if exponent.len() > 0 {
        assert(n[point] == exponent[0]);
    }
    crate::http::lemma_digits_end(n, start, point);
    if exponent.len() > 0 {
        assert(n[mantissa] == exponent[0]);
    }
    if fraction.len() > 0 {
        assert forall|i: int| point + 1 <= i < mantissa implies 0x30 <= #[trigger] n[i]
            <= 0x39 by {
            assert(n[i] == fraction.skip(1)[i - point - 1]);
        }
        crate::http::lemma_digits_end(n, point + 1, mantissa);
    }
    assert(after_fraction(n, point) == mantissa);
    if exponent.len() > 0 {
        if is_run(exponent.skip(1)) {
            assert(n[mantissa + 1] == exponent.skip(1)[0]);
            assert(0x30 <= exponent.skip(1)[0] <= 0x39);
            assert forall|i: int| mantissa + 1 <= i < n.len() implies 0x30 <= #[trigger] n[i]
                <= 0x39 by {
                assert(n[i] == exponent.skip(1)[i - mantissa - 1]);
            }
            crate::http::lemma_digits_end(n, mantissa + 1, n.len() as int);
        } else {
            assert(n[mantissa + 1] == exponent[1]);
            assert forall|i: int| mantissa + 2 <= i < n.len() implies 0x30 <= #[trigger] n[i]
                <= 0x39 by {
                assert(n[i] == exponent.skip(2)[i - mantissa - 2]);
            }
            crate::http::lemma_digits_end(n, mantissa + 2, n.len() as int);
        }
    }
}

proof fn lemma_only_digits(s: Seq<u8>, p: int)
    requires
        0 <= p <= s.len(),
    ensures
        p <= after_digits(s, p) <= s.len(),
        are_digits(s.subrange(p, after_digits(s, p))),
    decreases s.len() - p,
{
    let end = after_digits(s, p);
    if p < s.len() && is_digit(s[p]) {
        lemma_only_digits(s, p + 1);
        let rest = s.subrange(p + 1, end);
        assert forall|i: int| 0 <= i < end - p implies 0x30 <= #[trigger] s.subrange(p, end)[i]
            <= 0x39 by {
            assert(i > 0 ==> rest[i - 1] == s.subrange(p, end)[i]);
        }
    }
}

/// Nothing else is a numeral.
pub proof fn law_nothing_else_is_a_numeral(n: Seq<u8>)
    requires
        is_numeral(n),
    ensures
        exists|whole: Seq<u8>, fraction: Seq<u8>, exponent: Seq<u8>|
            is_made_of(n, whole, fraction, exponent),
{
    let start = after_minus(n, 0);
    let point = after_digits(n, start);
    lemma_only_digits(n, start);
    let mantissa = after_fraction(n, point);
    if holds(n, point, 0x2e) {
        lemma_only_digits(n, point + 1);
    }
    let end = n.len() as int;
    let whole = n.subrange(start, point);
    let fraction = n.subrange(point, mantissa);
    let exponent = n.subrange(mantissa, end);
    assert(fraction.len() > 0 ==> fraction.skip(1) =~= n.subrange(point + 1, mantissa));
    if exponent_mark(n, mantissa) {
        let sign = after_sign(n, mantissa + 1);
        lemma_only_digits(n, sign);
        assert(exponent.skip(sign - mantissa) =~= n.subrange(sign, end));
        assert(is_run(n.subrange(sign, end)));
        assert(exponent[0] == n[mantissa]);
        if sign > mantissa + 1 {
            assert(exponent[1] == n[mantissa + 1]);
        }
    }
    assert(n =~= whole + fraction + exponent || n =~= seq![0x2du8] + whole + fraction + exponent);
    assert(is_made_of(n, whole, fraction, exponent));
}

/// Behind the last item there may be whitespace, and a comma with whitespace round it.
pub open spec fn may_be_last(last: Seq<u8>, pad: Seq<u8>) -> bool {
    last == pad || last == pad + seq![0x2cu8] + pad
}

proof fn lemma_last(s: Seq<u8>, b: int, pad: Seq<u8>, last: Seq<u8>, close: u8)
    requires
        here(s, b, last + seq![close]),
        is_whitespace(pad),
        may_be_last(last, pad),
        close == 0x5d || close == 0x7d,
    ensures
        closed(s, b, close) == Some(b + last.len() + 1),
{
    if last == pad {
        lemma_padded_byte(s, b, pad, close);
    } else {
        let comma = pad + seq![0x2cu8];
        assert(last + seq![close] =~= comma + (pad + seq![close]));
        lemma_here(s, b, comma, pad + seq![close]);
        lemma_padded_byte(s, b, pad, 0x2c);
        lemma_padded_byte(s, b + comma.len(), pad, close);
    }
}

/// A number is a numeral from end to end.
pub proof fn law_numbers_are_numerals(n: Seq<u8>)
    requires
        is_written_number(n),
    ensures
        is_numeral(n),
{
    let (whole, fraction, exponent) = choose|whole: Seq<u8>, fraction: Seq<u8>, exponent: Seq<u8>|
        #![trigger is_run(whole), is_fraction(fraction), is_exponent(exponent)]
        is_run(whole) && is_fraction(fraction) && is_exponent(exponent) && (n == whole + fraction
            + exponent || n == seq![0x2du8] + whole + fraction + exponent);
    law_what_is_a_numeral(n, whole, fraction, exponent);
}

/// What is written begins with a byte that is no whitespace.
proof fn lemma_begins_with(x: Json, pad: Seq<u8>, last: Seq<u8>)
    requires
        is_writable(x),
    ensures
        written(x, pad, last).len() > 0,
        !is_space(written(x, pad, last)[0]),
{
    if let Json::Numeral(n) = x {
        let (whole, fraction, exponent) = choose|
            whole: Seq<u8>,
            fraction: Seq<u8>,
            exponent: Seq<u8>,
        |
            #![trigger is_run(whole), is_fraction(fraction), is_exponent(exponent)]
            is_run(whole) && is_fraction(fraction) && is_exponent(exponent) && (n == whole
                + fraction + exponent || n == seq![0x2du8] + whole + fraction + exponent);
        assert(0x30 <= whole[0] <= 0x39);
        if n == whole + fraction + exponent {
            assert(n[0] == whole[0]);
        }
    }
}

proof fn lemma_word_bytes()
    ensures
        "true".spec_bytes() == seq![0x74u8, 0x72, 0x75, 0x65],
        "false".spec_bytes() == seq![0x66u8, 0x61, 0x6c, 0x73, 0x65],
        "null".spec_bytes() == seq![0x6eu8, 0x75, 0x6c, 0x6c],
{
    reveal_strlit("true");
    reveal_strlit("false");
    reveal_strlit("null");
    vstd::utf8::is_ascii_chars_encode_utf8("true"@);
    vstd::utf8::is_ascii_chars_encode_utf8("false"@);
    vstd::utf8::is_ascii_chars_encode_utf8("null"@);
    assert("true".spec_bytes() =~= seq![0x74u8, 0x72, 0x75, 0x65]);
    assert("false".spec_bytes() =~= seq![0x66u8, 0x61, 0x6c, 0x73, 0x65]);
    assert("null".spec_bytes() =~= seq![0x6eu8, 0x75, 0x6c, 0x6c]);
}

proof fn lemma_quoted(s: Seq<u8>, p: int, raw: Seq<u8>)
    requires
        here(s, p, seq![0x22u8] + raw + seq![0x22u8]),
        quotable(raw),
    ensures
        writes_text(s, p, p + raw.len() + 2, raw),
{
    lemma_here(s, p, seq![0x22u8] + raw, seq![0x22u8]);
    lemma_here(s, p, seq![0x22u8], raw);
    assert(s[p + 0] == seq![0x22u8][0]);
    assert(s[p + (raw.len() + 1) + 0] == seq![0x22u8][0]);
    lemma_here_stands(s, p + 1, raw);
}

/// What is written of a document is the document.
proof fn lemma_written(s: Seq<u8>, p: int, x: Json, pad: Seq<u8>, last: Seq<u8>)
    requires
        is_writable(x),
        is_whitespace(pad),
        may_be_last(last, pad),
        here(s, p, written(x, pad, last)),
    ensures
        end_of(s, p, x) == Some(p + written(x, pad, last).len()),
    decreases x, 0nat,
{
    lemma_word_bytes();
    match x {
        Json::Text(raw) => {
            lemma_quoted(s, p, raw);
        },
        Json::Numeral(n) => {
            lemma_here_stands(s, p, n);
            law_numbers_are_numerals(n);
        },
        Json::True => {
            lemma_here_stands(s, p, written(x, pad, last));
        },
        Json::False => {
            lemma_here_stands(s, p, written(x, pad, last));
        },
        Json::Null => {
            lemma_here_stands(s, p, written(x, pad, last));
        },
        Json::Array(xs) => {
            let open = seq![0x5bu8];
            let tail = if xs.len() == 0 {
                seq![0x5du8]
            } else {
                written_elements(xs, 0, pad, last)
            };
            lemma_here(s, p, open + pad, tail);
            lemma_here(s, p, open, pad);
            assert(s[p + 0] == open[0]);
            if xs.len() == 0 {
                assert(open + pad + tail =~= open + (pad + tail));
                lemma_here(s, p, open, pad + tail);
                lemma_padded_byte(s, p + 1, pad, 0x5d);
            } else {
                lemma_begins_with(xs[0], pad, last);
                lemma_elements_begin(xs, 0, pad, last);
                assert(s[p + 1 + pad.len() + 0] == tail[0]);
                lemma_pad(s, p + 1, pad);
                lemma_written_elements(s, p + 1, p + 1 + pad.len(), xs, 0, pad, last);
            }
        },
        Json::Object(ms) => {
            let open = seq![0x7bu8];
            let tail = if ms.len() == 0 {
                seq![0x7du8]
            } else {
                written_members(ms, 0, pad, last)
            };
            lemma_here(s, p, open + pad, tail);
            lemma_here(s, p, open, pad);
            assert(s[p + 0] == open[0]);
            if ms.len() == 0 {
                assert(open + pad + tail =~= open + (pad + tail));
                lemma_here(s, p, open, pad + tail);
                lemma_padded_byte(s, p + 1, pad, 0x7d);
            } else {
                assert(tail[0] == 0x22);
                assert(s[p + 1 + pad.len() + 0] == tail[0]);
                lemma_pad(s, p + 1, pad);
                lemma_written_members(s, p + 1, p + 1 + pad.len(), ms, 0, pad, last);
            }
        },
    }
}

proof fn lemma_elements_begin(xs: Seq<Json>, i: int, pad: Seq<u8>, last: Seq<u8>)
    requires
        0 <= i < xs.len(),
        is_writable(xs[i]),
    ensures
        written_elements(xs, i, pad, last).len() > 0,
        written_elements(xs, i, pad, last)[0] == written(xs[i], pad, last)[0],
{
    lemma_begins_with(xs[i], pad, last);
}

/// The elements that stand at `at` are found from `p` on, where only whitespace stands
/// between.
proof fn lemma_written_elements(
    s: Seq<u8>,
    p: int,
    at: int,
    xs: Seq<Json>,
    i: int,
    pad: Seq<u8>,
    last: Seq<u8>,
)
    requires
        0 <= i < xs.len(),
        forall|k: int| 0 <= k < xs.len() ==> is_writable(#[trigger] xs[k]),
        is_whitespace(pad),
        may_be_last(last, pad),
        after_space(s, p) == at,
        here(s, at, written_elements(xs, i, pad, last)),
    ensures
        end_of_elements(s, p, xs, i) == Some(at + written_elements(xs, i, pad, last).len()),
    decreases xs, xs.len() - i,
{
    let w = written(xs[i], pad, last);
    let b = at + w.len();
    assert(is_writable(xs[i]));
    if i + 1 == xs.len() {
        let close = seq![0x5du8];
        assert(w + last + close =~= w + (last + close));
        lemma_here(s, at, w, last + close);
        lemma_written(s, at, xs[i], pad, last);
        lemma_last(s, b, pad, last, 0x5d);
    } else {
        let comma = seq![0x2cu8];
        let more = written_elements(xs, i + 1, pad, last);
        assert(w + pad + comma + pad + more =~= w + (pad + comma + (pad + more)));
        lemma_here(s, at, w, pad + comma + (pad + more));
        lemma_here(s, b, pad + comma, pad + more);
        lemma_written(s, at, xs[i], pad, last);
        lemma_padded_byte(s, b, pad, 0x2c);
        let c = b + pad.len() + 1;
        lemma_here(s, c, pad, more);
        assert(is_writable(xs[i + 1]));
        lemma_elements_begin(xs, i + 1, pad, last);
        lemma_begins_with(xs[i + 1], pad, last);
        assert(s[c + pad.len() + 0] == more[0]);
        lemma_pad(s, c, pad);
        lemma_written_elements(s, c, c + pad.len(), xs, i + 1, pad, last);
    }
}

/// The members that stand at `at` are found from `p` on, where only whitespace stands
/// between.
proof fn lemma_written_members(
    s: Seq<u8>,
    p: int,
    at: int,
    ms: Seq<(Seq<u8>, Json)>,
    i: int,
    pad: Seq<u8>,
    last: Seq<u8>,
)
    requires
        0 <= i < ms.len(),
        forall|k: int|
            0 <= k < ms.len() ==> quotable((#[trigger] ms[k]).0) && is_writable(ms[k].1),
        is_whitespace(pad),
        may_be_last(last, pad),
        after_space(s, p) == at,
        here(s, at, written_members(ms, i, pad, last)),
    ensures
        end_of_members(s, p, ms, i) == Some(at + written_members(ms, i, pad, last).len()),
    decreases ms, ms.len() - i,
{
    let name = ms[i].0;
    let key = written_key(name, pad);
    let w = written(ms[i].1, pad, last);
    let v = at + key.len();
    let b = v + w.len();
    assert(is_writable(ms[i].1) && quotable(name));
    lemma_begins_with(ms[i].1, pad, last);
    if i + 1 == ms.len() {
        let close = seq![0x7du8];
        assert(key + w + last + close =~= key + (w + (last + close)));
        lemma_here(s, at, key, w + (last + close));
        lemma_here(s, v, w, last + close);
        lemma_written_key(s, at, name, pad, w);
        lemma_written(s, v, ms[i].1, pad, last);
        lemma_last(s, b, pad, last, 0x7d);
    } else {
        let comma = seq![0x2cu8];
        let more = written_members(ms, i + 1, pad, last);
        assert(key + w + pad + comma + pad + more =~= key + (w + (pad + comma + (pad + more))));
        lemma_here(s, at, key, w + (pad + comma + (pad + more)));
        lemma_here(s, v, w, pad + comma + (pad + more));
        lemma_here(s, b, pad + comma, pad + more);
        lemma_written_key(s, at, name, pad, w);
        lemma_written(s, v, ms[i].1, pad, last);
        lemma_padded_byte(s, b, pad, 0x2c);
        let c = b + pad.len() + 1;
        lemma_here(s, c, pad, more);
        assert(more[0] == 0x22);
        assert(s[c + pad.len() + 0] == more[0]);
        lemma_pad(s, c, pad);
        lemma_written_members(s, c, c + pad.len(), ms, i + 1, pad, last);
    }
}

proof fn lemma_written_key(s: Seq<u8>, at: int, name: Seq<u8>, pad: Seq<u8>, w: Seq<u8>)
    requires
        quotable(name),
        is_whitespace(pad),
        here(s, at, written_key(name, pad)),
        here(s, at + written_key(name, pad).len(), w),
        w.len() > 0,
        !is_space(w[0]),
    ensures
        writes_text(s, at, at + name.len() + 2, name),
        after_byte(s, at + name.len() + 2, 0x3a) is Some,
        after_space(s, after_byte(s, at + name.len() + 2, 0x3a)->Some_0) == at + written_key(
            name,
            pad,
        ).len(),
{
    let quoted = seq![0x22u8] + name + seq![0x22u8];
    let colon = seq![0x3au8];
    assert(written_key(name, pad) =~= quoted + (pad + colon + pad));
    lemma_here(s, at, quoted, pad + colon + pad);
    let k = at + quoted.len();
    lemma_here(s, k, pad + colon, pad);
    lemma_quoted(s, at, name);
    lemma_padded_byte(s, k, pad, 0x3a);
    let v = at + written_key(name, pad).len();
    assert(s[v + 0] == w[0]);
    lemma_pad(s, k + pad.len() + 1, pad);
}

/// A document that is written out, with whatever whitespace between its tokens and round it,
/// is read as that document; of an object, what it says of a transaction is read. A comma behind
/// the last item of an array or an object makes no difference.
pub proof fn law_written_documents_are_read(
    x: Json,
    pad: Seq<u8>,
    last: Seq<u8>,
    round: Seq<u8>,
)
    requires
        is_writable(x),
        is_whitespace(pad),
        may_be_last(last, pad),
        is_whitespace(round),
    ensures
        is_text_of(round + written(x, pad, last) + round, x),
        x is Object ==> transaction_of(round + written(x, pad, last) + round) == transaction_in(x),
{
    let w = written(x, pad, last);
    let s = round + w + round;
    assert(here(s, 0, round + w + round));
    lemma_here(s, 0, round + w, round);
    lemma_here(s, 0, round, w);
    lemma_begins_with(x, pad, last);
    assert(s[round.len() as int + 0] == w[0]);
    lemma_pad(s, 0, round);
    lemma_written(s, round.len() as int, x, pad, last);
    lemma_pad(s, (round.len() + w.len()) as int, round);
    if x is Object {
        crate::documents::law_texts_say_what_their_documents_say(s, x);
    }
}

} // verus!
