//! JSON documents as trees, how texts write them, and what a tree says of a transaction.
//!
//! A text writes a tree with any whitespace between its tokens, and says what the tree
//! says; the order of the members of its objects does not matter.
use crate::bytes::stands_at;
use crate::grammar::{
    after_byte, after_digits, after_elements, after_fraction, after_members, after_minus,
    after_sign, after_space, after_value, after_word, blank, category, closing_quote,
    exponent_mark, holds, is_numeral, is_space, key, last_transaction, lemma_after_digits,
    lemma_after_space, lemma_words, member, members, merchant_list, numeral, numeral_end, object,
    root_member, root_members, text, transaction_of, truth, with_section, Section, Transaction,
    MAX_KNOWN_MERCHANTS,
};
use crate::payload_laws::{is_plain, lemma_first_letters, section_of};
use vstd::prelude::*;
use vstd::string::StringSliceAdditionalSpecFns;

verus! {

/// A JSON document. Strings and keys are what stands between the quotes, numbers are
/// numerals.
pub enum Json {
    Text(Seq<u8>),
    Numeral(Seq<u8>),
    True,
    False,
    Null,
    Array(Seq<Json>),
    Object(Seq<(Seq<u8>, Json)>),
}

// ---------------------------------------------------------------------------
// How a text writes a document.
// ---------------------------------------------------------------------------

/// Whether `raw` can stand between quotes: a backslash comes with the byte behind it, and a
/// quote only behind a backslash.
pub open spec fn quotable(raw: Seq<u8>) -> bool
    decreases raw.len(),
{
    if raw.len() == 0 {
        true
    } else if raw[0] == 0x5c {
        raw.len() >= 2 && quotable(raw.skip(2))
    } else {
        raw[0] != 0x22 && quotable(raw.skip(1))
    }
}

/// Whether the string `raw` stands in `s` from `p` up to `q`.
pub open spec fn writes_text(s: Seq<u8>, p: int, q: int, raw: Seq<u8>) -> bool {
    &&& quotable(raw)
    &&& 0 <= p
    &&& q == p + raw.len() + 2
    &&& q <= s.len()
    &&& s[p] == 0x22
    &&& s.subrange(p + 1, q - 1) == raw
    &&& s[q - 1] == 0x22
}

/// Where the document `x` ends that stands in `s` from `p` on; `None` if it does not stand
/// there.
pub open spec fn end_of(s: Seq<u8>, p: int, x: Json) -> Option<int>
    decreases x, 0nat,
{
    match x {
        Json::Text(raw) => if writes_text(s, p, p + raw.len() + 2, raw) {
            Some(p + raw.len() + 2)
        } else {
            None
        },
        Json::Numeral(n) => if stands_at(s, p, n) && is_numeral(n) {
            Some(p + n.len())
        } else {
            None
        },
        Json::True => after_word(s, p, "true".spec_bytes()),
        Json::False => after_word(s, p, "false".spec_bytes()),
        Json::Null => after_word(s, p, "null".spec_bytes()),
        Json::Array(xs) => if !holds(s, p, 0x5b) {
            None
        } else if xs.len() == 0 {
            after_byte(s, p + 1, 0x5d)
        } else {
            end_of_elements(s, p + 1, xs, 0)
        },
        Json::Object(ms) => if !holds(s, p, 0x7b) {
            None
        } else if ms.len() == 0 {
            after_byte(s, p + 1, 0x7d)
        } else {
            end_of_members(s, p + 1, ms, 0)
        },
    }
}

/// The position behind the closing byte `close` of an array or an object whose last item ends
/// at `b`: a comma may stand before it.
pub open spec fn closed(s: Seq<u8>, b: int, close: u8) -> Option<int> {
    match after_byte(s, b, 0x2c) {
        Some(c) => after_byte(s, c, close),
        None => after_byte(s, b, close),
    }
}

/// Where an array ends whose elements from the `i`th on stand in `s` from `p` on: each may
/// have whitespace before and behind it, and a comma or the closing bracket follows. A comma
/// may stand before the bracket.
pub open spec fn end_of_elements(s: Seq<u8>, p: int, xs: Seq<Json>, i: int) -> Option<int>
    decreases xs, xs.len() - i,
{
    if !(0 <= i < xs.len()) {
        None
    } else {
        match end_of(s, after_space(s, p), xs[i]) {
            Some(b) => if i + 1 == xs.len() {
                closed(s, b, 0x5d)
            } else {
                match after_byte(s, b, 0x2c) {
                    Some(c) => end_of_elements(s, c, xs, i + 1),
                    None => None,
                }
            },
            None => None,
        }
    }
}

/// Where an object ends whose members from the `i`th on stand in `s` from `p` on: a key, a
/// colon and a value, with whitespace between them, and a comma or the closing brace
/// follows. A comma may stand before the brace.
pub open spec fn end_of_members(s: Seq<u8>, p: int, ms: Seq<(Seq<u8>, Json)>, i: int) -> Option<int>
    decreases ms, ms.len() - i,
{
    if !(0 <= i < ms.len()) {
        None
    } else {
        let a = after_space(s, p);
        let k = a + ms[i].0.len() + 2;
        if !writes_text(s, a, k, ms[i].0) {
            None
        } else {
            match after_byte(s, k, 0x3a) {
                Some(v) => match end_of(s, after_space(s, v), ms[i].1) {
                    Some(b) => if i + 1 == ms.len() {
                        closed(s, b, 0x7d)
                    } else {
                        match after_byte(s, b, 0x2c) {
                            Some(c) => end_of_members(s, c, ms, i + 1),
                            None => None,
                        }
                    },
                    None => None,
                },
                None => None,
            }
        }
    }
}

/// Whether `s` is a text of the document `x`: whitespace may stand round it.
pub open spec fn is_text_of(s: Seq<u8>, x: Json) -> bool {
    end_of(s, after_space(s, 0), x) matches Some(q) && after_space(s, q) == s.len()
}

// ---------------------------------------------------------------------------
// What a document says.
// ---------------------------------------------------------------------------

/// Whether no string and no key of the document holds an escape.
pub open spec fn is_unescaped(x: Json) -> bool
    decreases x,
{
    match x {
        Json::Text(raw) => is_plain(raw),
        Json::Array(xs) => forall|i: int| 0 <= i < xs.len() ==> is_unescaped(#[trigger] xs[i]),
        Json::Object(ms) => forall|i: int|
            0 <= i < ms.len() ==> is_plain((#[trigger] ms[i]).0) && is_unescaped(ms[i].1),
        _ => true,
    }
}

/// The merchants that the elements from the `i`th on name, added to those known; `None`
/// where an element is no plain string.
pub open spec fn merchants_in(xs: Seq<Json>, i: int, known: Seq<Seq<u8>>) -> Option<Seq<Seq<u8>>>
    decreases xs.len() - i,
{
    if i >= xs.len() {
        Some(known)
    } else {
        match xs[i] {
            Json::Text(raw) => if is_plain(raw) {
                merchants_in(
                    xs,
                    i + 1,
                    if known.len() < MAX_KNOWN_MERCHANTS {
                        known.push(raw)
                    } else {
                        known
                    },
                )
            } else {
                None
            },
            _ => None,
        }
    }
}

/// The numeral that a document is.
pub open spec fn numeral_in(x: Json) -> Option<Seq<u8>> {
    match x {
        Json::Numeral(n) => Some(n),
        _ => None,
    }
}

/// The plain string that a document is.
pub open spec fn text_in(x: Json) -> Option<Seq<u8>> {
    match x {
        Json::Text(raw) => if is_plain(raw) {
            Some(raw)
        } else {
            None
        },
        _ => None,
    }
}

/// The truth value that a document is.
pub open spec fn truth_in(x: Json) -> Option<bool> {
    match x {
        Json::True => Some(true),
        Json::False => Some(false),
        _ => None,
    }
}

/// A member that is not known, which says nothing.
pub open spec fn nothing_in(x: Json, t: Transaction) -> Option<Transaction> {
    if is_unescaped(x) {
        Some(t)
    } else {
        None
    }
}

/// The transaction with what the member `name` of `section` says.
pub open spec fn member_in(
    section: Section,
    name: Seq<u8>,
    x: Json,
    t: Transaction,
) -> Option<Transaction> {
    match section {
        Section::Transaction => if name == "amount".spec_bytes() {
            match numeral_in(x) {
                Some(n) => Some(Transaction { amount: n, ..t }),
                None => None,
            }
        } else if name == "installments".spec_bytes() {
            match numeral_in(x) {
                Some(n) => Some(Transaction { installments: n, ..t }),
                None => None,
            }
        } else if name == "requested_at".spec_bytes() {
            match text_in(x) {
                Some(y) => Some(Transaction { requested_at: y, ..t }),
                None => None,
            }
        } else {
            nothing_in(x, t)
        },
        Section::Customer => if name == "avg_amount".spec_bytes() {
            match numeral_in(x) {
                Some(n) => Some(Transaction { customer_avg_amount: n, ..t }),
                None => None,
            }
        } else if name == "tx_count_24h".spec_bytes() {
            match numeral_in(x) {
                Some(n) => Some(Transaction { tx_count_24h: n, ..t }),
                None => None,
            }
        } else if name == "known_merchants".spec_bytes() {
            match x {
                Json::Array(xs) => match merchants_in(xs, 0, t.known_merchants) {
                    Some(known) => Some(Transaction { known_merchants: known, ..t }),
                    None => None,
                },
                _ => None,
            }
        } else {
            nothing_in(x, t)
        },
        Section::Merchant => if name == "id".spec_bytes() {
            match text_in(x) {
                Some(y) => Some(Transaction { merchant_id: y, ..t }),
                None => None,
            }
        } else if name == "mcc".spec_bytes() {
            match text_in(x) {
                Some(y) => Some(Transaction { merchant_mcc: category(y), ..t }),
                None => None,
            }
        } else if name == "avg_amount".spec_bytes() {
            match numeral_in(x) {
                Some(n) => Some(Transaction { merchant_avg_amount: n, ..t }),
                None => None,
            }
        } else {
            nothing_in(x, t)
        },
        Section::Terminal => if name == "is_online".spec_bytes() {
            match truth_in(x) {
                Some(b) => Some(Transaction { is_online: b, ..t }),
                None => None,
            }
        } else if name == "card_present".spec_bytes() {
            match truth_in(x) {
                Some(b) => Some(Transaction { card_present: b, ..t }),
                None => None,
            }
        } else if name == "km_from_home".spec_bytes() {
            match numeral_in(x) {
                Some(n) => Some(Transaction { km_from_home: n, ..t }),
                None => None,
            }
        } else {
            nothing_in(x, t)
        },
        Section::LastTransaction => if name == "timestamp".spec_bytes() {
            match text_in(x) {
                Some(y) => Some(Transaction { last_timestamp: Some(y), ..t }),
                None => None,
            }
        } else if name == "km_from_current".spec_bytes() {
            match numeral_in(x) {
                Some(n) => Some(Transaction { last_km_from_current: n, ..t }),
                None => None,
            }
        } else {
            nothing_in(x, t)
        },
    }
}

/// Where members stand: in the payload itself, or in a section of it.
pub enum Place {
    Payload,
    Inside(Section),
}

pub open spec fn depth(place: Place) -> nat {
    match place {
        Place::Payload => 1,
        Place::Inside(_) => 0,
    }
}

/// The transaction with what one more member says; `None` once something was not
/// understood.
pub open spec fn with_member(
    place: Place,
    t: Option<Transaction>,
    m: (Seq<u8>, Json),
) -> Option<Transaction>
    decreases depth(place), 1nat,
{
    match t {
        None => None,
        Some(t) => if !is_plain(m.0) {
            None
        } else {
            match place {
                Place::Inside(section) => member_in(section, m.0, m.1, t),
                Place::Payload => match section_of(m.0) {
                    Some(section) => section_in(section, m.1, t),
                    None => nothing_in(m.1, t),
                },
            }
        },
    }
}

/// The transaction with what a section says. For the last transaction `null` takes back
/// what an earlier one said.
pub open spec fn section_in(section: Section, x: Json, t: Transaction) -> Option<Transaction>
    decreases 1nat, 0nat,
{
    match x {
        Json::Object(ms) => with_members(Place::Inside(section), Some(t), ms),
        Json::Null => if section is LastTransaction {
            Some(
                Transaction {
                    last_timestamp: None,
                    last_km_from_current: "0".spec_bytes(),
                    ..t
                },
            )
        } else {
            None
        },
        _ => None,
    }
}

/// The transaction with what members say, one after the other.
pub open spec fn with_members(
    place: Place,
    t: Option<Transaction>,
    ms: Seq<(Seq<u8>, Json)>,
) -> Option<Transaction>
    decreases depth(place), ms.len() + 2,
{
    if ms.len() == 0 {
        t
    } else {
        with_members(place, with_member(place, t, ms[0]), ms.drop_first())
    }
}

/// The transaction that a document describes.
pub open spec fn transaction_in(x: Json) -> Option<Transaction> {
    match x {
        Json::Object(ms) => match with_members(Place::Payload, Some(blank()), ms) {
            Some(t) => if t.requested_at.len() == 0 || t.merchant_id.len() == 0 {
                None
            } else {
                Some(t)
            },
            None => None,
        },
        _ => None,
    }
}

// ---------------------------------------------------------------------------
// Documents that are equal up to the order of members.
// ---------------------------------------------------------------------------

/// Whether no key is repeated within any object of the document.
pub open spec fn has_no_repeats(x: Json) -> bool
    decreases x,
{
    match x {
        Json::Array(xs) => forall|i: int| 0 <= i < xs.len() ==> has_no_repeats(#[trigger] xs[i]),
        Json::Object(ms) => {
            &&& distinct_keys(ms)
            &&& forall|i: int| 0 <= i < ms.len() ==> has_no_repeats((#[trigger] ms[i]).1)
        },
        _ => true,
    }
}

/// Whether no key is repeated among the members.
pub open spec fn distinct_keys(ms: Seq<(Seq<u8>, Json)>) -> bool {
    forall|i: int, j: int| 0 <= i < j < ms.len() ==> (#[trigger] ms[i]).0 != (#[trigger] ms[j]).0
}

/// Whether two documents are equal up to the order of the members of their objects.
pub open spec fn same_document(x: Json, y: Json) -> bool
    decreases x,
{
    match (x, y) {
        (Json::Array(a), Json::Array(b)) => {
            &&& a.len() == b.len()
            &&& forall|i: int| 0 <= i < a.len() ==> same_document(#[trigger] a[i], #[trigger] b[i])
        },
        (Json::Object(a), Json::Object(b)) => {
            &&& a.len() == b.len()
            &&& forall|i: int|
                0 <= i < a.len() ==> exists|j: int|
                    0 <= j < b.len() && (#[trigger] a[i]).0 == (#[trigger] b[j]).0
                        && same_document(a[i].1, b[j].1)
            &&& forall|j: int|
                0 <= j < b.len() ==> exists|i: int|
                    0 <= i < a.len() && (#[trigger] a[i]).0 == (#[trigger] b[j]).0
                        && same_document(a[i].1, b[j].1)
        },
        _ => x == y,
    }
}

// ---------------------------------------------------------------------------
// What is read of a text is what its document says.
// ---------------------------------------------------------------------------

/// Whether a token that ends at `q` is followed by whitespace or a closing token or a comma.
spec fn ends(s: Seq<u8>, q: int) -> bool {
    &&& 0 <= q < s.len()
    &&& is_space(s[q]) || s[q] == 0x2c || s[q] == 0x5d || s[q] == 0x7d
}

proof fn lemma_ends(s: Seq<u8>, q: int, b: u8)
    requires
        0 <= q,
        after_byte(s, q, b) is Some,
        b == 0x2c || b == 0x5d || b == 0x7d,
    ensures
        ends(s, q),
        after_byte(s, q, b)->Some_0 <= s.len(),
        q < after_byte(s, q, b)->Some_0,
{
    lemma_after_space(s, q);
}

proof fn lemma_closed(s: Seq<u8>, b: int, close: u8)
    requires
        0 <= b,
        closed(s, b, close) is Some,
        close == 0x5d || close == 0x7d,
    ensures
        ends(s, b),
        b < closed(s, b, close)->Some_0,
        after_byte(s, b, 0x2c) is Some ==> 0 <= b < after_byte(s, b, 0x2c)->Some_0,
{
    match after_byte(s, b, 0x2c) {
        Some(c) => {
            lemma_ends(s, b, 0x2c);
            lemma_ends(s, c, close);
        },
        None => {
            lemma_ends(s, b, close);
        },
    }
}

/// Where only the closing byte follows, nothing more is read.
proof fn lemma_nothing_more(
    section: Section,
    s: Seq<u8>,
    c: int,
    q: int,
    known: Seq<Seq<u8>>,
    t: Transaction,
)
    ensures
        after_byte(s, c, 0x5d) == Some(q) ==> after_elements(s, c) == Some(q),
        after_byte(s, c, 0x5d) == Some(q) ==> merchant_list(s, c, known) == Some((known, q)),
        after_byte(s, c, 0x7d) == Some(q) ==> after_members(s, c) == Some(q),
        after_byte(s, c, 0x7d) == Some(q) ==> members(section, s, c, t) == Some((t, q)),
        after_byte(s, c, 0x7d) == Some(q) ==> root_members(s, c, t) == Some((t, q)),
{
}

proof fn lemma_space_done(s: Seq<u8>, p: int)
    requires
        0 <= p,
    ensures
        after_space(s, after_space(s, p)) == after_space(s, p),
        p <= after_space(s, p),
{
    lemma_after_space(s, p);
}

/// The byte with which a numeral begins.
proof fn lemma_numeral_begins(n: Seq<u8>)
    requires
        is_numeral(n),
    ensures
        n.len() > 0,
        n[0] == 0x2d || n[0] == 0x2e || 0x30 <= n[0] <= 0x39,
{
    lemma_after_digits(n, 0);
}

/// The byte with which a document begins.
proof fn lemma_begins(s: Seq<u8>, p: int, q: int, x: Json)
    requires
        end_of(s, p, x) == Some(q),
    ensures
        0 <= p < s.len(),
        match x {
            Json::Text(_) => s[p] == 0x22,
            Json::Numeral(_) => s[p] == 0x2d || s[p] == 0x2e || 0x30 <= s[p] <= 0x39,
            Json::True => s[p] == 0x74,
            Json::False => s[p] == 0x66,
            Json::Null => s[p] == 0x6e,
            Json::Array(_) => s[p] == 0x5b,
            Json::Object(_) => s[p] == 0x7b,
        },
        !is_space(s[p]),
        after_space(s, p) == p,
{
    lemma_words();
    lemma_first_letters(s, p);
    if let Json::Numeral(n) = x {
        lemma_numeral_begins(n);
        assert(s.subrange(p, q)[0] == s[p]);
    }
}

proof fn lemma_quote(s: Seq<u8>, start: int, raw: Seq<u8>)
    requires
        quotable(raw),
        0 <= start,
        start + raw.len() < s.len(),
        s.subrange(start, start + raw.len()) == raw,
        s[start + raw.len()] == 0x22,
    ensures
        closing_quote(s, start) == if is_plain(raw) {
            Some(start + raw.len())
        } else {
            None
        },
    decreases raw.len(),
{
    if raw.len() > 0 {
        assert(s[start] == raw[0]);
        if raw[0] == 0x5c {
            assert(!is_plain(raw));
        } else {
            let rest = raw.skip(1);
            assert(s.subrange(start + 1, start + 1 + rest.len()) =~= rest);
            lemma_quote(s, start + 1, rest);
            assert(is_plain(raw) == is_plain(rest)) by {
                if is_plain(rest) {
                    assert forall|i: int| 0 <= i < raw.len() implies raw[i] != 0x22 && raw[i]
                        != 0x5c by {
                        if i > 0 {
                            assert(rest[i - 1] == raw[i]);
                        }
                    }
                }
                if is_plain(raw) {
                    assert forall|i: int| 0 <= i < rest.len() implies rest[i] != 0x22 && rest[i]
                        != 0x5c by {
                        assert(rest[i] == raw[i + 1]);
                    }
                }
            }
        }
    } else {
        assert(is_plain(raw));
    }
}

proof fn lemma_text_at(s: Seq<u8>, p: int, q: int, raw: Seq<u8>)
    requires
        writes_text(s, p, q, raw),
    ensures
        text(s, p) == if is_plain(raw) {
            Some((raw, q))
        } else {
            None
        },
{
    assert(after_space(s, p) == p);
    lemma_quote(s, p + 1, raw);
}

/// Digits that end before the next token.
proof fn lemma_digits_at(s: Seq<u8>, p: int, q: int, i: int)
    requires
        0 <= p <= q <= s.len(),
        0 <= i <= q - p,
        ends(s, q),
    ensures
        after_digits(s, p + i) == p + after_digits(s.subrange(p, q), i),
        i <= after_digits(s.subrange(p, q), i) <= q - p,
    decreases q - p - i,
{
    let n = s.subrange(p, q);
    if i < q - p {
        assert(n[i] == s[p + i]);
        if crate::bytes::is_digit(s[p + i]) {
            lemma_digits_at(s, p, q, i + 1);
        }
    }
}

proof fn lemma_numeral_at(s: Seq<u8>, p: int, q: int)
    requires
        0 <= p < q <= s.len(),
        is_numeral(s.subrange(p, q)),
        ends(s, q),
    ensures
        numeral_end(s, p) == Some(q),
{
    let n = s.subrange(p, q);
    assert(forall|i: int| 0 <= i < q - p ==> n[i] == s[p + i]);
    lemma_numeral_begins(n);
    let whole = after_minus(n, 0);
    assert(after_minus(s, p) == p + whole);
    lemma_digits_at(s, p, q, whole);
    let point = after_digits(n, whole);
    assert(holds(s, p + point, 0x2e) == holds(n, point, 0x2e));
    if holds(n, point, 0x2e) {
        lemma_digits_at(s, p, q, point + 1);
    }
    let mantissa = after_fraction(n, point);
    assert(after_fraction(s, p + point) == p + mantissa);
    assert(exponent_mark(s, p + mantissa) == exponent_mark(n, mantissa));
    if exponent_mark(n, mantissa) {
        let sign = after_sign(n, mantissa + 1);
        assert(after_sign(s, p + mantissa + 1) == p + sign);
        lemma_digits_at(s, p, q, sign);
    }
}

/// The simple readings of a document.
proof fn lemma_simple(s: Seq<u8>, v: int, b: int, x: Json)
    requires
        0 <= v,
        end_of(s, after_space(s, v), x) == Some(b),
        ends(s, b),
    ensures
        text(s, v) == match text_in(x) {
            Some(y) => Some((y, b)),
            None => None,
        },
        numeral(s, v) == match numeral_in(x) {
            Some(n) => Some((n, b)),
            None => None,
        },
        truth(s, v) == match truth_in(x) {
            Some(y) => Some((y, b)),
            None => None,
        },
{
    let p = after_space(s, v);
    lemma_space_done(s, v);
    lemma_begins(s, p, b, x);
    lemma_words();
    lemma_first_letters(s, p);
    assert(text(s, v) == text(s, p));
    match x {
        Json::Text(raw) => {
            lemma_text_at(s, p, b, raw);
            lemma_after_digits(s, p);
        },
        Json::Numeral(n) => {
            lemma_numeral_at(s, p, b);
        },
        _ => {
            lemma_after_digits(s, p);
        },
    }
}

/// A document is passed over unless it holds an escape.
proof fn lemma_value(s: Seq<u8>, v: int, b: int, x: Json)
    requires
        0 <= v,
        end_of(s, after_space(s, v), x) == Some(b),
        ends(s, b),
    ensures
        after_value(s, v) == if is_unescaped(x) {
            Some(b)
        } else {
            None
        },
    decreases x, 0nat,
{
    let p = after_space(s, v);
    lemma_space_done(s, v);
    lemma_begins(s, p, b, x);
    lemma_words();
    lemma_simple(s, p, b, x);
    match x {
        Json::Array(xs) => {
            if xs.len() > 0 {
                lemma_elements(s, p + 1, b, xs, 0);
            }
        },
        Json::Object(ms) => {
            if ms.len() > 0 {
                lemma_passed_members(s, p + 1, b, ms, 0);
            }
        },
        _ => {},
    }
}

proof fn lemma_elements(s: Seq<u8>, p: int, q: int, xs: Seq<Json>, i: int)
    requires
        0 <= p,
        end_of_elements(s, p, xs, i) == Some(q),
    ensures
        after_elements(s, p) == if forall|j: int| i <= j < xs.len() ==> is_unescaped(
            #[trigger] xs[j],
        ) {
            Some(q)
        } else {
            None
        },
    decreases xs, xs.len() - i,
{
    let a = after_space(s, p);
    lemma_space_done(s, p);
    let b = end_of(s, a, xs[i])->Some_0;
    lemma_begins(s, a, b, xs[i]);
    lemma_behind(s, a, b, xs[i]);
    if i + 1 == xs.len() {
        lemma_closed(s, b, 0x5d);
    } else {
        lemma_ends(s, b, 0x2c);
    }
    lemma_value(s, a, b, xs[i]);
    if is_unescaped(xs[i]) {
        if i + 1 < xs.len() {
            let c = after_byte(s, b, 0x2c)->Some_0;
            lemma_elements(s, c, q, xs, i + 1);
            assert((forall|j: int| i <= j < xs.len() ==> is_unescaped(#[trigger] xs[j])) == (
            forall|j: int| i + 1 <= j < xs.len() ==> is_unescaped(#[trigger] xs[j])));
        } else if let Some(c) = after_byte(s, b, 0x2c) {
            lemma_nothing_more(Section::Customer, s, c, q, Seq::empty(), blank());
        }
    }
}

proof fn lemma_passed_members(
    s: Seq<u8>,
    p: int,
    q: int,
    ms: Seq<(Seq<u8>, Json)>,
    i: int,
)
    requires
        0 <= p,
        end_of_members(s, p, ms, i) == Some(q),
    ensures
        after_members(s, p) == if forall|j: int|
            i <= j < ms.len() ==> is_plain((#[trigger] ms[j]).0) && is_unescaped(ms[j].1) {
            Some(q)
        } else {
            None
        },
    decreases ms, ms.len() - i,
{
    let a = after_space(s, p);
    lemma_space_done(s, p);
    let k = a + ms[i].0.len() + 2;
    lemma_text_at(s, a, k, ms[i].0);
    let v = after_byte(s, k, 0x3a)->Some_0;
    lemma_after_space(s, k);
    let b = lemma_member_value(s, v, q, ms, i);
    lemma_value(s, v, b, ms[i].1);
    if is_plain(ms[i].0) && is_unescaped(ms[i].1) {
        if i + 1 < ms.len() {
            let c = after_byte(s, b, 0x2c)->Some_0;
            lemma_passed_members(s, c, q, ms, i + 1);
            assert((forall|j: int|
                i <= j < ms.len() ==> is_plain((#[trigger] ms[j]).0) && is_unescaped(ms[j].1)) == (
            forall|j: int|
                i + 1 <= j < ms.len() ==> is_plain((#[trigger] ms[j]).0) && is_unescaped(
                    ms[j].1,
                )));
        } else if let Some(c) = after_byte(s, b, 0x2c) {
            lemma_nothing_more(Section::Customer, s, c, q, Seq::empty(), blank());
        }
    }
}

/// A document ends behind where it begins.
proof fn lemma_behind(s: Seq<u8>, p: int, q: int, x: Json)
    requires
        end_of(s, p, x) == Some(q),
    ensures
        p < q,
    decreases x, 0nat,
{
    lemma_words();
    lemma_begins(s, p, q, x);
    lemma_after_space(s, p + 1);
    match x {
        Json::Array(xs) => {
            if xs.len() > 0 {
                lemma_elements_behind(s, p + 1, q, xs, 0);
            }
        },
        Json::Object(ms) => {
            if ms.len() > 0 {
                lemma_members_behind(s, p + 1, q, ms, 0);
            }
        },
        _ => {},
    }
}

proof fn lemma_elements_behind(s: Seq<u8>, p: int, q: int, xs: Seq<Json>, i: int)
    requires
        0 <= p,
        end_of_elements(s, p, xs, i) == Some(q),
    ensures
        p < q,
    decreases xs, xs.len() - i,
{
    let a = after_space(s, p);
    lemma_space_done(s, p);
    let b = end_of(s, a, xs[i])->Some_0;
    lemma_behind(s, a, b, xs[i]);
    lemma_after_space(s, b);
    if i + 1 < xs.len() {
        lemma_elements_behind(s, after_byte(s, b, 0x2c)->Some_0, q, xs, i + 1);
    } else {
        lemma_closed(s, b, 0x5d);
    }
}

proof fn lemma_members_behind(
    s: Seq<u8>,
    p: int,
    q: int,
    ms: Seq<(Seq<u8>, Json)>,
    i: int,
)
    requires
        0 <= p,
        end_of_members(s, p, ms, i) == Some(q),
    ensures
        p < q,
    decreases ms, ms.len() - i,
{
    lemma_space_done(s, p);
    let k = after_space(s, p) + ms[i].0.len() + 2;
    lemma_after_space(s, k);
    let v = after_byte(s, k, 0x3a)->Some_0;
    lemma_space_done(s, v);
    let b = end_of(s, after_space(s, v), ms[i].1)->Some_0;
    lemma_behind(s, after_space(s, v), b, ms[i].1);
    lemma_after_space(s, b);
    if i + 1 < ms.len() {
        lemma_members_behind(s, after_byte(s, b, 0x2c)->Some_0, q, ms, i + 1);
    } else {
        lemma_closed(s, b, 0x7d);
    }
}

/// Where the value of a member ends.
proof fn lemma_member_value(
    s: Seq<u8>,
    v: int,
    q: int,
    ms: Seq<(Seq<u8>, Json)>,
    i: int,
) -> (b: int)
    requires
        0 <= v,
        0 <= i < ms.len(),
        end_of(s, after_space(s, v), ms[i].1) matches Some(b) && if i + 1 == ms.len() {
            closed(s, b, 0x7d) == Some(q)
        } else {
            after_byte(s, b, 0x2c) matches Some(c) && end_of_members(s, c, ms, i + 1) == Some(q)
        },
    ensures
        end_of(s, after_space(s, v), ms[i].1) == Some(b),
        if i + 1 == ms.len() {
            closed(s, b, 0x7d) == Some(q)
        } else {
            after_byte(s, b, 0x2c) matches Some(c) && end_of_members(s, c, ms, i + 1) == Some(q)
        },
        v < b,
        ends(s, b),
        after_byte(s, b, 0x2c) is Some ==> b < after_byte(s, b, 0x2c)->Some_0,
{
    let b = end_of(s, after_space(s, v), ms[i].1)->Some_0;
    lemma_space_done(s, v);
    lemma_behind(s, after_space(s, v), b, ms[i].1);
    lemma_after_space(s, b);
    if i + 1 == ms.len() {
        lemma_closed(s, b, 0x7d);
    } else {
        lemma_ends(s, b, 0x2c);
    }
    b
}

proof fn lemma_merchants(
    s: Seq<u8>,
    p: int,
    q: int,
    xs: Seq<Json>,
    i: int,
    known: Seq<Seq<u8>>,
)
    requires
        0 <= p,
        end_of_elements(s, p, xs, i) == Some(q),
    ensures
        merchant_list(s, p, known) == match merchants_in(xs, i, known) {
            Some(list) => Some((list, q)),
            None => None,
        },
    decreases xs.len() - i,
{
    let a = after_space(s, p);
    lemma_space_done(s, p);
    let b = end_of(s, a, xs[i])->Some_0;
    lemma_begins(s, a, b, xs[i]);
    lemma_behind(s, a, b, xs[i]);
    if i + 1 == xs.len() {
        lemma_closed(s, b, 0x5d);
    } else {
        lemma_ends(s, b, 0x2c);
    }
    lemma_simple(s, a, b, xs[i]);
    if let Some(raw) = text_in(xs[i]) {
        let grown = if known.len() < MAX_KNOWN_MERCHANTS {
            known.push(raw)
        } else {
            known
        };
        if i + 1 < xs.len() {
            lemma_merchants(s, after_byte(s, b, 0x2c)->Some_0, q, xs, i + 1, grown);
        } else {
            assert(merchants_in(xs, i + 1, grown) == Some(grown));
            if let Some(c) = after_byte(s, b, 0x2c) {
                lemma_nothing_more(Section::Customer, s, c, q, grown, blank());
            }
        }
    }
}

/// A reading with the position behind it.
spec fn at(u: Option<Transaction>, q: int) -> Option<(Transaction, int)> {
    match u {
        Some(t) => Some((t, q)),
        None => None,
    }
}

proof fn lemma_member(
    section: Section,
    name: Seq<u8>,
    s: Seq<u8>,
    v: int,
    b: int,
    x: Json,
    t: Transaction,
)
    requires
        0 <= v,
        end_of(s, after_space(s, v), x) == Some(b),
        ends(s, b),
    ensures
        member(section, name, s, v, t) == at(member_in(section, name, x, t), b),
{
    let p = after_space(s, v);
    lemma_simple(s, v, b, x);
    lemma_value(s, v, b, x);
    lemma_begins(s, p, b, x);
    if let Json::Array(xs) = x {
        if xs.len() > 0 {
            lemma_merchants(s, p + 1, b, xs, 0, t.known_merchants);
        }
    }
}

pub proof fn lemma_none_stays(place: Place, ms: Seq<(Seq<u8>, Json)>)
    ensures
        with_members(place, None, ms) is None,
    decreases ms.len(),
{
    if ms.len() > 0 {
        assert(with_member(place, None, ms[0]) is None);
        lemma_none_stays(place, ms.drop_first());
    }
}

proof fn lemma_section_members(
    section: Section,
    s: Seq<u8>,
    p: int,
    q: int,
    ms: Seq<(Seq<u8>, Json)>,
    i: int,
    t: Transaction,
)
    requires
        0 <= p,
        end_of_members(s, p, ms, i) == Some(q),
    ensures
        members(section, s, p, t) == at(
            with_members(Place::Inside(section), Some(t), ms.skip(i)),
            q,
        ),
    decreases ms.len() - i,
{
    let place = Place::Inside(section);
    let a = after_space(s, p);
    lemma_space_done(s, p);
    let k = a + ms[i].0.len() + 2;
    lemma_text_at(s, a, k, ms[i].0);
    let v = after_byte(s, k, 0x3a)->Some_0;
    lemma_after_space(s, k);
    let b = lemma_member_value(s, v, q, ms, i);
    lemma_member(section, ms[i].0, s, v, b, ms[i].1, t);
    let now = with_member(place, Some(t), ms[i]);
    let rest = ms.skip(i).drop_first();
    assert(ms.skip(i)[0] == ms[i]);
    assert(rest =~= ms.skip(i + 1));
    match now {
        None => {
            lemma_none_stays(place, rest);
        },
        Some(u) => {
            if i + 1 < ms.len() {
                lemma_section_members(
                    section,
                    s,
                    after_byte(s, b, 0x2c)->Some_0,
                    q,
                    ms,
                    i + 1,
                    u,
                );
            } else {
                assert(rest.len() == 0);
                if let Some(c) = after_byte(s, b, 0x2c) {
                    lemma_nothing_more(section, s, c, q, Seq::empty(), u);
                }
            }
        },
    }
}

proof fn lemma_section(section: Section, s: Seq<u8>, v: int, b: int, x: Json, t: Transaction)
    requires
        0 <= v,
        end_of(s, after_space(s, v), x) == Some(b),
        ends(s, b),
    ensures
        section !is LastTransaction ==> object(section, s, v, t) == at(
            section_in(section, x, t),
            b,
        ),
        section is LastTransaction ==> last_transaction(s, v, t) == at(
            section_in(section, x, t),
            b,
        ),
{
    let p = after_space(s, v);
    lemma_space_done(s, v);
    lemma_begins(s, p, b, x);
    lemma_words();
    lemma_first_letters(s, p);
    assert(object(section, s, v, t) == object(section, s, p, t));
    if let Json::Object(ms) = x {
        if ms.len() > 0 {
            lemma_section_members(section, s, p + 1, b, ms, 0, t);
            assert(ms.skip(0) =~= ms);
        }
    }
}

proof fn lemma_payload_members(
    s: Seq<u8>,
    p: int,
    q: int,
    ms: Seq<(Seq<u8>, Json)>,
    i: int,
    t: Transaction,
)
    requires
        0 <= p,
        end_of_members(s, p, ms, i) == Some(q),
    ensures
        root_members(s, p, t) == at(with_members(Place::Payload, Some(t), ms.skip(i)), q),
    decreases ms.len() - i,
{
    let place = Place::Payload;
    let a = after_space(s, p);
    lemma_space_done(s, p);
    let k = a + ms[i].0.len() + 2;
    lemma_text_at(s, a, k, ms[i].0);
    let v = after_byte(s, k, 0x3a)->Some_0;
    lemma_after_space(s, k);
    let b = lemma_member_value(s, v, q, ms, i);
    let name = ms[i].0;
    match section_of(name) {
        Some(section) => {
            lemma_section(section, s, v, b, ms[i].1, t);
        },
        None => {
            lemma_value(s, v, b, ms[i].1);
        },
    }
    let now = with_member(place, Some(t), ms[i]);
    if is_plain(name) {
        assert(root_member(name, s, v, t) == at(now, b));
    }
    let rest = ms.skip(i).drop_first();
    assert(ms.skip(i)[0] == ms[i]);
    assert(rest =~= ms.skip(i + 1));
    match now {
        None => {
            lemma_none_stays(place, rest);
        },
        Some(u) => {
            if i + 1 < ms.len() {
                lemma_payload_members(s, after_byte(s, b, 0x2c)->Some_0, q, ms, i + 1, u);
            } else {
                assert(rest.len() == 0);
                if let Some(c) = after_byte(s, b, 0x2c) {
                    lemma_nothing_more(Section::Customer, s, c, q, Seq::empty(), u);
                }
            }
        },
    }
}

/// What is read of a text that begins with a document is what the document says.
pub proof fn lemma_beginning(s: Seq<u8>, q: int, x: Json)
    requires
        end_of(s, after_space(s, 0), x) == Some(q),
        x is Object,
    ensures
        transaction_of(s) == transaction_in(x),
{
    let p = after_space(s, 0);
    lemma_space_done(s, 0);
    lemma_begins(s, p, q, x);
    if let Json::Object(ms) = x {
        if ms.len() > 0 {
            lemma_payload_members(s, p + 1, q, ms, 0, blank());
            assert(ms.skip(0) =~= ms);
        }
    }
}

/// What is read of a text depends on its document alone: whitespace between its tokens does
/// not matter.
pub proof fn law_texts_say_what_their_documents_say(s: Seq<u8>, x: Json)
    requires
        is_text_of(s, x),
        x is Object,
    ensures
        transaction_of(s) == transaction_in(x),
{
    lemma_beginning(s, end_of(s, after_space(s, 0), x)->Some_0, x);
}

// ---------------------------------------------------------------------------
// The order of members does not matter.
// ---------------------------------------------------------------------------

/// A transaction where there is one, with only its section put into `u`.
pub open spec fn put_into(section: Section, r: Option<Transaction>, u: Transaction) -> Option<Transaction> {
    match r {
        Some(r) => Some(with_section(section, r, u)),
        None => None,
    }
}

pub proof fn lemma_member_apart(
    section: Section,
    name: Seq<u8>,
    x: Json,
    t: Transaction,
    u: Transaction,
)
    ensures
        member_in(section, name, x, with_section(section, t, u)) == put_into(
            section,
            member_in(section, name, x, t),
            u,
        ),
        member_in(section, name, x, t) == put_into(section, member_in(section, name, x, t), t),
{
}

proof fn lemma_members_apart(
    section: Section,
    ms: Seq<(Seq<u8>, Json)>,
    t: Transaction,
    u: Transaction,
)
    ensures
        with_members(Place::Inside(section), Some(with_section(section, t, u)), ms) == put_into(
            section,
            with_members(Place::Inside(section), Some(t), ms),
            u,
        ),
        with_members(Place::Inside(section), Some(t), ms) == put_into(
            section,
            with_members(Place::Inside(section), Some(t), ms),
            t,
        ),
    decreases ms.len(),
{
    let place = Place::Inside(section);
    if ms.len() > 0 {
        let rest = ms.drop_first();
        lemma_member_apart(section, ms[0].0, ms[0].1, t, u);
        assert(with_member(place, Some(with_section(section, t, u)), ms[0]) == put_into(
            section,
            with_member(place, Some(t), ms[0]),
            u,
        ));
        match with_member(place, Some(t), ms[0]) {
            Some(r) => {
                lemma_members_apart(section, rest, r, u);
                lemma_members_apart(section, rest, r, t);
                assert(with_section(section, r, t) == r);
            },
            None => {
                lemma_none_stays(place, rest);
            },
        }
    }
}

pub proof fn lemma_section_apart(section: Section, x: Json, t: Transaction, u: Transaction)
    ensures
        section_in(section, x, with_section(section, t, u)) == put_into(
            section,
            section_in(section, x, t),
            u,
        ),
        section_in(section, x, t) == put_into(section, section_in(section, x, t), t),
{
    if let Json::Object(ms) = x {
        lemma_members_apart(section, ms, t, u);
    }
}

proof fn lemma_sections_commute(p: Section, q: Section, x: Json, y: Json, t: Transaction)
    requires
        p != q,
    ensures
        match section_in(p, x, t) {
            Some(r) => section_in(q, y, r),
            None => None,
        } == match section_in(q, y, t) {
            Some(r) => section_in(p, x, r),
            None => None,
        },
{
    lemma_section_apart(p, x, t, t);
    lemma_section_apart(q, y, t, t);
    if let Some(r) = section_in(p, x, t) {
        assert(r == with_section(p, r, t));
        assert(r == with_section(q, t, r));
        lemma_section_apart(q, y, t, r);
    }
    if let Some(r) = section_in(q, y, t) {
        assert(r == with_section(q, r, t));
        assert(r == with_section(p, t, r));
        lemma_section_apart(p, x, t, r);
    }
}

/// Two members with different keys say the same in either order.
proof fn lemma_members_commute(
    place: Place,
    t: Option<Transaction>,
    a: (Seq<u8>, Json),
    b: (Seq<u8>, Json),
)
    requires
        a.0 != b.0,
    ensures
        with_member(place, with_member(place, t, a), b) == with_member(
            place,
            with_member(place, t, b),
            a,
        ),
{
    if let Some(u) = t {
        if place is Payload {
            let p = section_of(a.0);
            let q = section_of(b.0);
            if p is Some && q is Some {
                assert(p != q);
                lemma_sections_commute(p->Some_0, q->Some_0, a.1, b.1, u);
            }
        }
    }
}

/// Any member may be taken first.
pub proof fn lemma_taken_first(
    place: Place,
    t: Option<Transaction>,
    ms: Seq<(Seq<u8>, Json)>,
    i: int,
)
    requires
        0 <= i < ms.len(),
        distinct_keys(ms),
    ensures
        with_members(place, t, ms) == with_members(
            place,
            with_member(place, t, ms[i]),
            ms.remove(i),
        ),
    decreases ms.len(),
{
    let rest = ms.drop_first();
    if i == 0 {
        assert(ms.remove(0) =~= rest);
    } else {
        lemma_taken_first(place, with_member(place, t, ms[0]), rest, i - 1);
        lemma_members_commute(place, t, ms[0], ms[i]);
        assert(ms.remove(i)[0] == ms[0]);
        assert(ms.remove(i).drop_first() =~= rest.remove(i - 1));
    }
}

proof fn lemma_same_escapes(x: Json, y: Json)
    requires
        same_document(x, y),
    ensures
        is_unescaped(x) == is_unescaped(y),
    decreases x,
{
    match (x, y) {
        (Json::Array(a), Json::Array(b)) => {
            assert forall|i: int| 0 <= i < a.len() implies is_unescaped(#[trigger] a[i])
                == is_unescaped(b[i]) by {
                lemma_same_escapes(a[i], b[i]);
            }
            assert forall|i: int| 0 <= i < b.len() && is_unescaped(x) implies is_unescaped(
                #[trigger] b[i],
            ) by {
                assert(is_unescaped(a[i]));
            }
        },
        (Json::Object(a), Json::Object(b)) => {
            if is_unescaped(x) {
                assert forall|j: int| 0 <= j < b.len() implies is_plain((#[trigger] b[j]).0)
                    && is_unescaped(b[j].1) by {
                    let i = choose|i: int|
                        0 <= i < a.len() && (#[trigger] a[i]).0 == b[j].0 && same_document(
                            a[i].1,
                            b[j].1,
                        );
                    lemma_same_escapes(a[i].1, b[j].1);
                }
            }
            if is_unescaped(y) {
                assert forall|i: int| 0 <= i < a.len() implies is_plain((#[trigger] a[i]).0)
                    && is_unescaped(a[i].1) by {
                    let j = choose|j: int|
                        0 <= j < b.len() && a[i].0 == (#[trigger] b[j]).0 && same_document(
                            a[i].1,
                            b[j].1,
                        );
                    lemma_same_escapes(a[i].1, b[j].1);
                }
            }
        },
        _ => {},
    }
}

proof fn lemma_same_merchants(a: Seq<Json>, b: Seq<Json>, i: int, known: Seq<Seq<u8>>)
    requires
        0 <= i,
        same_document(Json::Array(a), Json::Array(b)),
    ensures
        merchants_in(a, i, known) == merchants_in(b, i, known),
    decreases a.len() - i,
{
    if i < a.len() {
        assert(same_document(a[i], b[i]));
        if let Json::Text(raw) = a[i] {
            let grown = if known.len() < MAX_KNOWN_MERCHANTS {
                known.push(raw)
            } else {
                known
            };
            lemma_same_merchants(a, b, i + 1, grown);
        }
    }
}

/// Whether each member of `a` has its like in `b`.
spec fn same_members(a: Seq<(Seq<u8>, Json)>, b: Seq<(Seq<u8>, Json)>) -> bool {
    forall|i: int|
        0 <= i < a.len() ==> exists|j: int|
            0 <= j < b.len() && (#[trigger] a[i]).0 == (#[trigger] b[j]).0 && same_document(
                a[i].1,
                b[j].1,
            )
}

proof fn lemma_like_member(
    place: Place,
    t: Option<Transaction>,
    a: (Seq<u8>, Json),
    b: (Seq<u8>, Json),
)
    requires
        a.0 == b.0,
        same_document(a.1, b.1),
        has_no_repeats(a.1),
        has_no_repeats(b.1),
    ensures
        with_member(place, t, a) == with_member(place, t, b),
    decreases depth(place), 0nat,
{
    lemma_same_escapes(a.1, b.1);
    if let Some(u) = t {
        match (a.1, b.1) {
            (Json::Array(xs), Json::Array(ys)) => {
                lemma_same_merchants(xs, ys, 0, u.known_merchants);
            },
            (Json::Object(ms), Json::Object(ns)) => {
                if place is Payload {
                    if let Some(section) = section_of(a.0) {
                        assert(same_members(ms, ns));
                        lemma_permuted(Place::Inside(section), Some(u), ms, ns);
                    }
                }
            },
            _ => {},
        }
    }
}

proof fn lemma_permuted(
    place: Place,
    t: Option<Transaction>,
    a: Seq<(Seq<u8>, Json)>,
    b: Seq<(Seq<u8>, Json)>,
)
    requires
        a.len() == b.len(),
        same_members(a, b),
        has_no_repeats(Json::Object(a)),
        has_no_repeats(Json::Object(b)),
    ensures
        with_members(place, t, a) == with_members(place, t, b),
    decreases depth(place), a.len() + 1,
{
    if a.len() > 0 {
        let j = choose|j: int|
            0 <= j < b.len() && a[0].0 == (#[trigger] b[j]).0 && same_document(a[0].1, b[j].1);
        lemma_taken_first(place, t, b, j);
        lemma_like_member(place, t, a[0], b[j]);
        let left = a.drop_first();
        let right = b.remove(j);
        assert forall|i: int| 0 <= i < left.len() implies exists|k: int|
            0 <= k < right.len() && (#[trigger] left[i]).0 == (#[trigger] right[k]).0
                && same_document(left[i].1, right[k].1) by {
            assert(left[i] == a[i + 1]);
            let l = choose|l: int|
                0 <= l < b.len() && a[i + 1].0 == (#[trigger] b[l]).0 && same_document(
                    a[i + 1].1,
                    b[l].1,
                );
            assert(l != j);
            let k = if l < j {
                l
            } else {
                l - 1
            };
            assert(right[k] == b[l]);
        }
        assert forall|i: int| 0 <= i < right.len() implies right[i] == b[if i < j {
            i
        } else {
            i + 1
        }] by {}
        assert(has_no_repeats(Json::Object(left)));
        assert(has_no_repeats(Json::Object(right)));
        lemma_permuted(place, with_member(place, t, a[0]), left, right);
    }
}

/// Texts of documents that repeat no key within an object and are equal up to the order of
/// the members of their objects describe the same transaction, or neither describes one:
/// neither that order nor whitespace between tokens matters.
pub proof fn law_order_and_whitespace_do_not_matter(a: Seq<u8>, b: Seq<u8>, x: Json, y: Json)
    requires
        is_text_of(a, x),
        is_text_of(b, y),
        x is Object,
        has_no_repeats(x),
        has_no_repeats(y),
        same_document(x, y),
    ensures
        transaction_of(a) == transaction_of(b),
{
    law_texts_say_what_their_documents_say(a, x);
    law_texts_say_what_their_documents_say(b, y);
    if let (Json::Object(ms), Json::Object(ns)) = (x, y) {
        assert(same_members(ms, ns));
        lemma_permuted(Place::Payload, Some(blank()), ms, ns);
    }
}

} // verus!
