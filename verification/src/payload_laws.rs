//! Laws of the transaction payload.
use crate::bytes::{is_digit, stands_at};
use crate::grammar::{
    after_byte, after_digits, after_elements, after_fraction, after_members, after_minus,
    after_sign, after_space, after_value, blank, closing_quote, exponent_mark, holds, is_numeral,
    is_space, key, last_transaction, lemma_after_digits, lemma_after_space, lemma_closing_quote,
    lemma_key, lemma_member_forward, lemma_numeral, lemma_root_member_forward, lemma_text,
    lemma_value_forward, lemma_words, member, members, merchant_list, numeral, numeral_end,
    root_member, root_members, text, transaction_of, truth, with_section, Section, Transaction,
    MAX_KNOWN_MERCHANTS,
};
use vstd::prelude::*;
use vstd::string::StringSliceAdditionalSpecFns;

verus! {

// ---------------------------------------------------------------------------
// What a transaction holds.
// ---------------------------------------------------------------------------

/// Whether a string holds neither a quote nor a backslash.
pub open spec fn is_plain(x: Seq<u8>) -> bool {
    forall|i: int| 0 <= i < x.len() ==> x[i] != 0x22 && x[i] != 0x5c
}

/// Whether the numeric fields hold numerals, the strings are plain and no more
/// merchants are kept than there is room for.
pub open spec fn is_sound(t: Transaction) -> bool {
    &&& is_numeral(t.amount)
    &&& is_numeral(t.installments)
    &&& is_numeral(t.customer_avg_amount)
    &&& is_numeral(t.tx_count_24h)
    &&& is_numeral(t.merchant_avg_amount)
    &&& is_numeral(t.km_from_home)
    &&& is_numeral(t.last_km_from_current)
    &&& is_plain(t.requested_at)
    &&& is_plain(t.merchant_id)
    &&& t.last_timestamp matches Some(x) ==> is_plain(x)
    &&& t.known_merchants.len() <= MAX_KNOWN_MERCHANTS
    &&& forall|i: int| 0 <= i < t.known_merchants.len() ==> is_plain(#[trigger] t.known_merchants[i])
}

proof fn lemma_digits_within(s: Seq<u8>, from: int, end: int, p: int)
    requires
        0 <= from <= p,
        after_digits(s, p) <= end <= s.len(),
    ensures
        after_digits(s.subrange(from, end), p - from) == after_digits(s, p) - from,
    decreases s.len() - p,
{
    lemma_after_digits(s, p);
    let w = s.subrange(from, end);
    if p < s.len() && is_digit(s[p]) {
        lemma_after_digits(s, p + 1);
        assert(w[p - from] == s[p]);
        lemma_digits_within(s, from, end, p + 1);
    } else if p < end {
        assert(w[p - from] == s[p]);
    }
}

/// What is read as a numeral is a numeral.
pub proof fn law_numerals_are_numerals(s: Seq<u8>, p: int)
    requires
        0 <= p,
    ensures
        numeral(s, p) matches Some((n, _)) ==> is_numeral(n),
{
    lemma_after_space(s, p);
    let q = after_space(s, p);
    if let Some(end) = numeral_end(s, q) {
        lemma_numeral(s, p);
        let n = s.subrange(q, end);
        let whole = after_minus(s, q);
        lemma_after_digits(s, whole);
        let point = after_digits(s, whole);
        lemma_after_digits(s, point + 1);
        let mantissa = after_fraction(s, point);
        let sign = after_sign(s, mantissa + 1);
        lemma_after_digits(s, sign);
        assert(forall|i: int| q <= i < end ==> n[i - q] == s[i]);
        assert(after_minus(n, 0) == whole - q) by {
            if q < end {
                assert(n[0] == s[q]);
            }
        }
        lemma_digits_within(s, q, end, whole);
        if holds(s, point, 0x2e) {
            lemma_digits_within(s, q, end, point + 1);
            assert(n[point - q] == s[point]);
        }
        assert(after_fraction(n, point - q) == mantissa - q) by {
            if point < end {
                assert(n[point - q] == s[point]);
            }
        }
        if exponent_mark(s, mantissa) {
            assert(n[mantissa - q] == s[mantissa]);
            assert(after_sign(n, mantissa + 1 - q) == sign - q) by {
                if mantissa + 1 < end {
                    assert(n[mantissa + 1 - q] == s[mantissa + 1]);
                }
            }
            lemma_digits_within(s, q, end, sign);
        }
    }
}

proof fn lemma_merchants_sound(s: Seq<u8>, p: int, known: Seq<Seq<u8>>)
    requires
        known.len() <= MAX_KNOWN_MERCHANTS,
        forall|i: int| 0 <= i < known.len() ==> is_plain(#[trigger] known[i]),
    ensures
        merchant_list(s, p, known) matches Some((list, _)) ==> {
            &&& list.len() <= MAX_KNOWN_MERCHANTS
            &&& forall|i: int| 0 <= i < list.len() ==> is_plain(#[trigger] list[i])
        },
    decreases s.len() - p,
{
    lemma_after_space(s, p);
    let q = after_space(s, p);
    if !holds(s, q, 0x5d) {
        lemma_text(s, q);
        if let Some((merchant, w)) = text(s, q) {
            lemma_after_space(s, w);
            let grown = if known.len() < MAX_KNOWN_MERCHANTS {
                known.push(merchant)
            } else {
                known
            };
            assert(is_plain(merchant));
            if let Some(x) = after_byte(s, w, 0x2c) {
                lemma_merchants_sound(s, x, grown);
            }
        }
    }
}

proof fn lemma_member_sound(section: Section, name: Seq<u8>, s: Seq<u8>, p: int, t: Transaction)
    requires
        0 <= p,
        is_sound(t),
    ensures
        member(section, name, s, p, t) matches Some((u, _)) ==> is_sound(u),
{
    law_numerals_are_numerals(s, p);
    lemma_text(s, p);
    if let Some(q) = after_byte(s, p, 0x5b) {
        lemma_merchants_sound(s, q, t.known_merchants);
    }
}

proof fn lemma_members_sound(section: Section, s: Seq<u8>, p: int, t: Transaction)
    requires
        0 <= p,
        is_sound(t),
    ensures
        members(section, s, p, t) matches Some((u, _)) ==> is_sound(u),
    decreases s.len() - p,
{
    lemma_key(s, p);
    let q = after_space(s, p);
    if !holds(s, q, 0x7d) {
        if let Some((name, v)) = key(s, q) {
            lemma_member_sound(section, name, s, v, t);
            lemma_member_forward(section, name, s, v, t);
            if let Some((u, w)) = member(section, name, s, v, t) {
                lemma_after_space(s, w);
                if let Some(x) = after_byte(s, w, 0x2c) {
                    lemma_members_sound(section, s, x, u);
                }
            }
        }
    }
}

proof fn lemma_zero_is_numeral()
    ensures
        is_numeral("0".spec_bytes()),
{
    reveal_strlit("0");
    vstd::utf8::is_ascii_chars_encode_utf8("0"@);
    let z = "0".spec_bytes();
    assert(z.len() == 1 && z[0] == 0x30);
    reveal_with_fuel(after_digits, 2);
}

proof fn lemma_root_members_sound(s: Seq<u8>, p: int, t: Transaction)
    requires
        0 <= p,
        is_sound(t),
    ensures
        root_members(s, p, t) matches Some((u, _)) ==> is_sound(u),
    decreases s.len() - p,
{
    lemma_key(s, p);
    let q = after_space(s, p);
    if !holds(s, q, 0x7d) {
        if let Some((name, v)) = key(s, q) {
            lemma_zero_is_numeral();
            lemma_after_space(s, v);
            lemma_after_space(s, after_space(s, v));
            if let Some(b) = after_byte(s, v, 0x7b) {
                lemma_members_sound(Section::Transaction, s, b, t);
                lemma_members_sound(Section::Customer, s, b, t);
                lemma_members_sound(Section::Merchant, s, b, t);
                lemma_members_sound(Section::Terminal, s, b, t);
                lemma_members_sound(Section::LastTransaction, s, b, t);
            }
            lemma_root_member_forward(name, s, v, t);
            if let Some((u, w)) = root_member(name, s, v, t) {
                assert(is_sound(u));
                lemma_after_space(s, w);
                if let Some(x) = after_byte(s, w, 0x2c) {
                    lemma_root_members_sound(s, x, u);
                }
            }
        }
    }
}

/// Every transaction that is read holds numerals where it holds numbers, plain
/// strings, at most as many merchants as there is room for, a time and a merchant.
pub proof fn law_transactions_are_sound(s: Seq<u8>)
    ensures
        transaction_of(s) matches Some(t) ==> {
            &&& is_sound(t)
            &&& t.requested_at.len() > 0
            &&& t.merchant_id.len() > 0
        },
{
    lemma_zero_is_numeral();
    lemma_after_space(s, 0);
    if let Some(q) = after_byte(s, 0, 0x7b) {
        lemma_root_members_sound(s, q, blank());
    }
}

// ---------------------------------------------------------------------------
// The order of the sections does not matter.
// ---------------------------------------------------------------------------

/// The section that the member `name` of the payload opens.
pub open spec fn section_of(name: Seq<u8>) -> Option<Section> {
    if name == "transaction".spec_bytes() {
        Some(Section::Transaction)
    } else if name == "customer".spec_bytes() {
        Some(Section::Customer)
    } else if name == "merchant".spec_bytes() {
        Some(Section::Merchant)
    } else if name == "terminal".spec_bytes() {
        Some(Section::Terminal)
    } else if name == "last_transaction".spec_bytes() {
        Some(Section::LastTransaction)
    } else {
        None
    }
}

/// What the same reading does to two transactions that agree on a section.
spec fn alike(
    section: Section,
    one: Option<(Transaction, int)>,
    t: Transaction,
    other: Option<(Transaction, int)>,
    t2: Transaction,
) -> bool {
    match one {
        Some((u, q)) => {
            &&& u == with_section(section, u, t)
            &&& other == Some((with_section(section, u, t2), q))
        },
        None => other is None,
    }
}

proof fn lemma_member_section(
    section: Section,
    name: Seq<u8>,
    s: Seq<u8>,
    p: int,
    t: Transaction,
    t2: Transaction,
)
    requires
        t2 == with_section(section, t, t2),
    ensures
        alike(
            section,
            member(section, name, s, p, t),
            t,
            member(section, name, s, p, t2),
            t2,
        ),
{
}

proof fn lemma_members_section(
    section: Section,
    s: Seq<u8>,
    p: int,
    t: Transaction,
    t2: Transaction,
)
    requires
        t2 == with_section(section, t, t2),
    ensures
        alike(section, members(section, s, p, t), t, members(section, s, p, t2), t2),
    decreases s.len() - p,
{
    lemma_key(s, p);
    let q = after_space(s, p);
    if !holds(s, q, 0x7d) {
        if let Some((name, v)) = key(s, q) {
            lemma_member_section(section, name, s, v, t, t2);
            lemma_member_forward(section, name, s, v, t);
            if let Some((u, w)) = member(section, name, s, v, t) {
                let u2 = with_section(section, u, t2);
                lemma_after_space(s, w);
                if let Some(x) = after_byte(s, w, 0x2c) {
                    lemma_members_section(section, s, x, u, u2);
                }
            }
        }
    }
}

proof fn lemma_root_member_section(
    section: Section,
    name: Seq<u8>,
    s: Seq<u8>,
    p: int,
    t: Transaction,
    t2: Transaction,
)
    requires
        section_of(name) == Some(section),
        t2 == with_section(section, t, t2),
    ensures
        alike(section, root_member(name, s, p, t), t, root_member(name, s, p, t2), t2),
{
    if let Some(b) = after_byte(s, p, 0x7b) {
        lemma_members_section(section, s, b, t, t2);
    }
    if let Some(b) = after_byte(s, after_space(s, p), 0x7b) {
        lemma_members_section(section, s, b, t, t2);
    }
}

/// The members of a payload can stand in any order: to read the value of one member
/// and then that of a member of another name says the same as to read them the
/// other way round.
pub proof fn law_order_of_members(
    a: Seq<u8>,
    s1: Seq<u8>,
    p1: int,
    b: Seq<u8>,
    s2: Seq<u8>,
    p2: int,
    t: Transaction,
)
    requires
        a != b,
    ensures
        match (root_member(a, s1, p1, t), root_member(b, s2, p2, t)) {
            (Some((ta, qa)), Some((tb, qb))) => {
                let ab = root_member(b, s2, p2, ta);
                let ba = root_member(a, s1, p1, tb);
                &&& ab matches Some((tab, q2)) && q2 == qb
                &&& ba matches Some((tba, q1)) && q1 == qa
                &&& ab->Some_0.0 == ba->Some_0.0
            },
            _ => true,
        },
{
    if let (Some((ta, qa)), Some((tb, qb))) = (root_member(a, s1, p1, t), root_member(b, s2, p2, t)) {
        if let Some(sa) = section_of(a) {
            lemma_root_member_section(sa, a, s1, p1, t, t);
            if let Some(sb) = section_of(b) {
                lemma_root_member_section(sb, b, s2, p2, t, t);
                assert(sa != sb);
                lemma_root_member_section(sa, a, s1, p1, t, tb);
                lemma_root_member_section(sb, b, s2, p2, t, ta);
                assert(with_section(sa, ta, tb) =~= with_section(sb, tb, ta));
            }
        }
    }
}

/// A member of a name that is not known is passed over, whatever its value.
pub proof fn law_unknown_members(name: Seq<u8>, s: Seq<u8>, p: int, t: Transaction)
    requires
        section_of(name) is None,
    ensures
        root_member(name, s, p, t) == match after_value(s, p) {
            Some(q) => Some((t, q)),
            None => None,
        },
{
}

// ---------------------------------------------------------------------------
// What stands behind the payload does not matter.
// ---------------------------------------------------------------------------

proof fn lemma_space_stays(s: Seq<u8>, more: Seq<u8>, p: int)
    requires
        0 <= p,
        after_space(s, p) < s.len(),
    ensures
        after_space(s + more, p) == after_space(s, p),
    decreases s.len() - p,
{
    lemma_after_space(s, p);
    assert((s + more)[p] == s[p]);
    if is_space(s[p]) {
        lemma_space_stays(s, more, p + 1);
    }
}

proof fn lemma_byte_stays(s: Seq<u8>, more: Seq<u8>, p: int, b: u8)
    requires
        0 <= p,
        after_space(s, p) < s.len(),
    ensures
        after_byte(s + more, p, b) == after_byte(s, p, b),
{
    lemma_space_stays(s, more, p);
    lemma_after_space(s, p);
}

proof fn lemma_quote_stays(s: Seq<u8>, more: Seq<u8>, p: int)
    requires
        0 <= p,
        closing_quote(s, p) is Some,
    ensures
        closing_quote(s + more, p) == closing_quote(s, p),
    decreases s.len() - p,
{
    assert((s + more)[p] == s[p]);
    if s[p] != 0x22 {
        lemma_quote_stays(s, more, p + 1);
    }
}

proof fn lemma_text_stays(s: Seq<u8>, more: Seq<u8>, p: int)
    requires
        0 <= p,
        text(s, p) is Some,
    ensures
        text(s + more, p) == text(s, p),
{
    lemma_after_space(s, p);
    lemma_byte_stays(s, more, p, 0x22);
    let start = after_byte(s, p, 0x22)->Some_0;
    lemma_closing_quote(s, start);
    lemma_quote_stays(s, more, start);
    let end = closing_quote(s, start)->Some_0;
    assert((s + more).subrange(start, end) =~= s.subrange(start, end));
}

proof fn lemma_key_stays(s: Seq<u8>, more: Seq<u8>, p: int)
    requires
        0 <= p,
        key(s, p) is Some,
    ensures
        key(s + more, p) == key(s, p),
{
    lemma_text(s, p);
    lemma_text_stays(s, more, p);
    let q = text(s, p)->Some_0.1;
    lemma_after_space(s, q);
    lemma_byte_stays(s, more, q, 0x3a);
}

pub proof fn lemma_digits_stay(s: Seq<u8>, more: Seq<u8>, p: int)
    requires
        0 <= p,
        after_digits(s, p) < s.len(),
    ensures
        after_digits(s + more, p) == after_digits(s, p),
    decreases s.len() - p,
{
    lemma_after_digits(s, p);
    assert((s + more)[p] == s[p]);
    if is_digit(s[p]) {
        lemma_digits_stay(s, more, p + 1);
    }
}

proof fn lemma_numeral_stays(s: Seq<u8>, more: Seq<u8>, p: int)
    requires
        0 <= p,
        numeral(s, p) matches Some((_, end)) && end < s.len(),
    ensures
        numeral(s + more, p) == numeral(s, p),
{
    let m = s + more;
    lemma_numeral(s, p);
    lemma_after_space(s, p);
    let q = after_space(s, p);
    let end = numeral_end(s, q)->Some_0;
    let whole = after_minus(s, q);
    lemma_after_digits(s, whole);
    let point = after_digits(s, whole);
    lemma_after_digits(s, point + 1);
    let mantissa = after_fraction(s, point);
    let sign = after_sign(s, mantissa + 1);
    lemma_after_digits(s, sign);
    assert(forall|i: int| 0 <= i < s.len() ==> m[i] == s[i]);
    lemma_space_stays(s, more, p);
    lemma_digits_stay(s, more, whole);
    if holds(s, point, 0x2e) {
        lemma_digits_stay(s, more, point + 1);
    }
    if exponent_mark(s, mantissa) {
        lemma_digits_stay(s, more, sign);
    }
    assert(numeral_end(m, q) == numeral_end(s, q));
    assert(m.subrange(q, end) =~= s.subrange(q, end));
}

proof fn lemma_word_stays(s: Seq<u8>, more: Seq<u8>, p: int, word: Seq<u8>)
    requires
        stands_at(s, p, word),
    ensures
        stands_at(s + more, p, word),
{
    assert((s + more).subrange(p, p + word.len()) =~= s.subrange(p, p + word.len()));
}

/// What the words begin with.
pub proof fn lemma_first_letters(s: Seq<u8>, p: int)
    ensures
        stands_at(s, p, "true".spec_bytes()) ==> s[p] == 0x74,
        stands_at(s, p, "false".spec_bytes()) ==> s[p] == 0x66,
        stands_at(s, p, "null".spec_bytes()) ==> s[p] == 0x6e,
{
    lemma_words();
    reveal_strlit("true");
    reveal_strlit("false");
    reveal_strlit("null");
    vstd::utf8::is_ascii_chars_encode_utf8("true"@);
    vstd::utf8::is_ascii_chars_encode_utf8("false"@);
    vstd::utf8::is_ascii_chars_encode_utf8("null"@);
    if stands_at(s, p, "true".spec_bytes()) {
        assert(s.subrange(p, p + 4)[0] == s[p]);
    }
    if stands_at(s, p, "false".spec_bytes()) {
        assert(s.subrange(p, p + 5)[0] == s[p]);
    }
    if stands_at(s, p, "null".spec_bytes()) {
        assert(s.subrange(p, p + 4)[0] == s[p]);
    }
}

proof fn lemma_truth_stays(s: Seq<u8>, more: Seq<u8>, p: int)
    requires
        0 <= p,
        truth(s, p) is Some,
    ensures
        truth(s + more, p) == truth(s, p),
{
    lemma_words();
    lemma_after_space(s, p);
    let q = after_space(s, p);
    lemma_space_stays(s, more, p);
    lemma_first_letters(s, q);
    lemma_first_letters(s + more, q);
    assert((s + more)[q] == s[q]);
    if stands_at(s, q, "true".spec_bytes()) {
        lemma_word_stays(s, more, q, "true".spec_bytes());
    } else {
        lemma_word_stays(s, more, q, "false".spec_bytes());
    }
}

proof fn lemma_value_stays(s: Seq<u8>, more: Seq<u8>, p: int)
    requires
        0 <= p,
        after_value(s, p) matches Some(q) && q < s.len(),
    ensures
        after_value(s + more, p) == after_value(s, p),
    decreases s.len() - p, 0int,
{
    lemma_after_space(s, p);
    let q = after_space(s, p);
    lemma_space_stays(s, more, p);
    assert((s + more)[q] == s[q]);
    if s[q] == 0x22 {
        lemma_text_stays(s, more, q);
    } else if s[q] == 0x7b {
        lemma_members_stay(s, more, q + 1);
    } else if s[q] == 0x5b {
        lemma_elements_stay(s, more, q + 1);
    } else if s[q] == 0x74 {
        lemma_word_stays(s, more, q, "true".spec_bytes());
    } else if s[q] == 0x66 {
        lemma_word_stays(s, more, q, "false".spec_bytes());
    } else if s[q] == 0x6e {
        lemma_word_stays(s, more, q, "null".spec_bytes());
    } else {
        lemma_numeral_stays(s, more, q);
    }
}

proof fn lemma_members_stay(s: Seq<u8>, more: Seq<u8>, p: int)
    requires
        0 <= p,
        after_members(s, p) is Some,
    ensures
        after_members(s + more, p) == after_members(s, p),
    decreases s.len() - p, 1int,
{
    lemma_key(s, p);
    lemma_after_space(s, p);
    let q = after_space(s, p);
    if q < s.len() {
        lemma_space_stays(s, more, p);
        assert((s + more)[q] == s[q]);
    }
    if !holds(s, q, 0x7d) {
        lemma_after_space(s, q);
        lemma_text(s, q);
        lemma_key_stays(s, more, q);
        let v = key(s, q)->Some_0.1;
        lemma_value_forward(s, v);
        let w = after_value(s, v)->Some_0;
        lemma_after_space(s, w);
        lemma_byte_stays(s, more, w, 0x2c);
        lemma_byte_stays(s, more, w, 0x7d);
        lemma_value_stays(s, more, v);
        if let Some(x) = after_byte(s, w, 0x2c) {
            lemma_members_stay(s, more, x);
        }
    }
}

proof fn lemma_elements_stay(s: Seq<u8>, more: Seq<u8>, p: int)
    requires
        0 <= p,
        after_elements(s, p) is Some,
    ensures
        after_elements(s + more, p) == after_elements(s, p),
    decreases s.len() - p, 1int,
{
    lemma_after_space(s, p);
    let q = after_space(s, p);
    if q < s.len() {
        lemma_space_stays(s, more, p);
        assert((s + more)[q] == s[q]);
    }
    if !holds(s, q, 0x5d) {
        lemma_value_forward(s, q);
        lemma_after_space(s, q);
        let w = after_value(s, q)->Some_0;
        lemma_after_space(s, w);
        lemma_byte_stays(s, more, w, 0x2c);
        lemma_byte_stays(s, more, w, 0x5d);
        lemma_value_stays(s, more, q);
        lemma_space_stays(s, more, p);
        if let Some(x) = after_byte(s, w, 0x2c) {
            lemma_elements_stay(s, more, x);
        }
    }
}

proof fn lemma_merchants_stay(s: Seq<u8>, more: Seq<u8>, p: int, known: Seq<Seq<u8>>)
    requires
        0 <= p,
        merchant_list(s, p, known) is Some,
    ensures
        merchant_list(s + more, p, known) == merchant_list(s, p, known),
    decreases s.len() - p,
{
    lemma_after_space(s, p);
    let q = after_space(s, p);
    lemma_text(s, q);
    lemma_after_space(s, q);
    lemma_space_stays(s, more, p);
    assert((s + more)[q] == s[q]);
    lemma_text(s + more, q);
    lemma_after_space(s + more, p);
    if !holds(s, q, 0x5d) {
        lemma_text_stays(s, more, q);
        let (merchant, w) = text(s, q)->Some_0;
        let grown = if known.len() < MAX_KNOWN_MERCHANTS {
            known.push(merchant)
        } else {
            known
        };
        lemma_after_space(s, w);
        lemma_byte_stays(s, more, w, 0x2c);
        lemma_byte_stays(s, more, w, 0x5d);
        if let Some(x) = after_byte(s, w, 0x2c) {
            lemma_merchants_stay(s, more, x, grown);
        }
    }
}

proof fn lemma_member_stays(
    section: Section,
    name: Seq<u8>,
    s: Seq<u8>,
    more: Seq<u8>,
    p: int,
    t: Transaction,
)
    requires
        0 <= p,
        member(section, name, s, p, t) matches Some((_, q)) && q < s.len(),
    ensures
        member(section, name, s + more, p, t) == member(section, name, s, p, t),
{
    if text(s, p) is Some {
        lemma_text_stays(s, more, p);
    }
    if let Some((_, q)) = numeral(s, p) {
        if q < s.len() {
            lemma_numeral_stays(s, more, p);
        }
    }
    if truth(s, p) is Some {
        lemma_truth_stays(s, more, p);
    }
    if let Some(q) = after_value(s, p) {
        if q < s.len() {
            lemma_value_stays(s, more, p);
        }
    }
    lemma_after_space(s, p);
    if let Some(q) = after_byte(s, p, 0x5b) {
        lemma_byte_stays(s, more, p, 0x5b);
        if merchant_list(s, q, t.known_merchants) is Some {
            lemma_merchants_stay(s, more, q, t.known_merchants);
        }
    }
}

proof fn lemma_object_stays(
    section: Section,
    s: Seq<u8>,
    more: Seq<u8>,
    p: int,
    t: Transaction,
)
    requires
        0 <= p,
        members(section, s, p, t) is Some,
    ensures
        members(section, s + more, p, t) == members(section, s, p, t),
    decreases s.len() - p,
{
    lemma_key(s, p);
    lemma_after_space(s, p);
    let q = after_space(s, p);
    lemma_after_space(s, q);
    lemma_text(s, q);
    lemma_space_stays(s, more, p);
    assert((s + more)[q] == s[q]);
    if !holds(s, q, 0x7d) {
        lemma_key_stays(s, more, q);
        let (name, v) = key(s, q)->Some_0;
        lemma_member_forward(section, name, s, v, t);
        let (u, w) = member(section, name, s, v, t)->Some_0;
        lemma_after_space(s, w);
        lemma_byte_stays(s, more, w, 0x2c);
        lemma_byte_stays(s, more, w, 0x7d);
        lemma_member_stays(section, name, s, more, v, t);
        if let Some(x) = after_byte(s, w, 0x2c) {
            lemma_object_stays(section, s, more, x, u);
        }
    }
}

proof fn lemma_root_member_stays(
    name: Seq<u8>,
    s: Seq<u8>,
    more: Seq<u8>,
    p: int,
    t: Transaction,
)
    requires
        0 <= p,
        root_member(name, s, p, t) matches Some((_, q)) && q < s.len(),
    ensures
        root_member(name, s + more, p, t) == root_member(name, s, p, t),
{
    lemma_words();
    lemma_after_space(s, p);
    let q = after_space(s, p);
    lemma_after_space(s, q);
    match section_of(name) {
        Some(section) => {
            lemma_space_stays(s, more, p);
            lemma_space_stays(s, more, q);
            lemma_first_letters(s, q);
            lemma_first_letters(s + more, q);
            assert((s + more)[q] == s[q]);
            lemma_byte_stays(s, more, p, 0x7b);
            lemma_byte_stays(s, more, q, 0x7b);
            if stands_at(s, q, "null".spec_bytes()) {
                lemma_word_stays(s, more, q, "null".spec_bytes());
            }
            if let Some(b) = after_byte(s, p, 0x7b) {
                lemma_object_stays(section, s, more, b, t);
            }
        },
        None => {
            lemma_value_stays(s, more, p);
        },
    }
}

proof fn lemma_root_stays(s: Seq<u8>, more: Seq<u8>, p: int, t: Transaction)
    requires
        0 <= p,
        root_members(s, p, t) is Some,
    ensures
        root_members(s + more, p, t) == root_members(s, p, t),
    decreases s.len() - p,
{
    lemma_key(s, p);
    lemma_after_space(s, p);
    let q = after_space(s, p);
    lemma_after_space(s, q);
    lemma_text(s, q);
    lemma_space_stays(s, more, p);
    assert((s + more)[q] == s[q]);
    if !holds(s, q, 0x7d) {
        lemma_key_stays(s, more, q);
        let (name, v) = key(s, q)->Some_0;
        lemma_root_member_forward(name, s, v, t);
        let (u, w) = root_member(name, s, v, t)->Some_0;
        lemma_after_space(s, w);
        lemma_byte_stays(s, more, w, 0x2c);
        lemma_byte_stays(s, more, w, 0x7d);
        lemma_root_member_stays(name, s, more, v, t);
        if let Some(x) = after_byte(s, w, 0x2c) {
            lemma_root_stays(s, more, x, u);
        }
    }
}

/// A payload that describes a transaction describes the same one whatever bytes follow
/// it.
pub proof fn law_what_follows_does_not_matter(s: Seq<u8>, more: Seq<u8>)
    requires
        transaction_of(s) is Some,
    ensures
        transaction_of(s + more) == transaction_of(s),
{
    lemma_after_space(s, 0);
    lemma_byte_stays(s, more, 0, 0x7b);
    let q = after_byte(s, 0, 0x7b)->Some_0;
    lemma_root_stays(s, more, q, blank());
}

/// A payload begins with an opening brace and ends with a closing one: what has neither
/// describes no transaction.
pub proof fn law_payloads_stand_in_braces(s: Seq<u8>)
    requires
        transaction_of(s) is Some,
    ensures
        ({
            let p = after_space(s, 0);
            p < s.len() && s[p] == 0x7b && exists|q: int| p < q < s.len() && #[trigger] s[q] == 0x7d
        }),
{
    let p = after_space(s, 0);
    lemma_after_space(s, 0);
    lemma_payload_ends(s, p + 1, crate::grammar::blank());
}

proof fn lemma_payload_ends(s: Seq<u8>, p: int, t: Transaction)
    requires
        0 <= p,
        root_members(s, p, t) is Some,
    ensures
        exists|q: int| p <= q < s.len() && #[trigger] s[q] == 0x7d,
    decreases s.len() - p,
{
    lemma_key(s, p);
    let q = after_space(s, p);
    if holds(s, q, 0x7d) {
        assert(s[q] == 0x7d);
    } else {
        let (name, v) = key(s, q)->Some_0;
        lemma_root_member_forward(name, s, v, t);
        let (u, w) = root_member(name, s, v, t)->Some_0;
        lemma_after_space(s, w);
        match after_byte(s, w, 0x2c) {
            Some(x) => {
                lemma_payload_ends(s, x, u);
            },
            None => {
                assert(s[after_space(s, w)] == 0x7d);
            },
        }
    }
}

} // verus!
