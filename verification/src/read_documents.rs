//! Whatever is read is a document: nothing is read out of a text that does not begin with one.
use vstd::prelude::*;

verus! {

use crate::bytes::stands_at;
use crate::documents::{
    closed, end_of, end_of_elements, end_of_members, quotable, transaction_in, writes_text, Json,
};
use crate::grammar::{
    after_byte, after_elements, after_members, after_space, after_value, blank, forward, holds,
    key, lemma_after_space, lemma_closing_quote, lemma_key, lemma_member_forward, lemma_numeral,
    lemma_root_member_forward, lemma_text, lemma_value_forward, lemma_words, member, members, merchant_list, numeral, numeral_end,
    root_member, root_members, text, transaction_of, truth, Section, Transaction,
    MAX_KNOWN_MERCHANTS,
};
use crate::payload_laws::{is_plain, law_numerals_are_numerals, lemma_first_letters};

proof fn lemma_plain_is_quotable(raw: Seq<u8>)
    requires
        is_plain(raw),
    ensures
        quotable(raw),
    decreases raw.len(),
{
    if raw.len() > 0 {
        assert(raw[0] != 0x22 && raw[0] != 0x5c);
        let rest = raw.skip(1);
        assert forall|i: int| 0 <= i < rest.len() implies rest[i] != 0x22 && rest[i] != 0x5c by {
            assert(rest[i] == raw[i + 1]);
        }
        lemma_plain_is_quotable(rest);
    }
}

proof fn lemma_read_text(s: Seq<u8>, p: int, raw: Seq<u8>, q: int)
    requires
        0 <= p,
        text(s, p) == Some((raw, q)),
    ensures
        writes_text(s, after_space(s, p), q, raw),
        is_plain(raw),
{
    lemma_after_space(s, p);
    let start = after_space(s, p) + 1;
    lemma_closing_quote(s, start);
    assert(is_plain(raw));
    lemma_plain_is_quotable(raw);
}

proof fn lemma_moved_elements(s: Seq<u8>, p: int, xs: Seq<Json>, ys: Seq<Json>, j: int)
    requires
        xs.len() == ys.len() + 1,
        xs.skip(1) == ys,
        0 <= j < ys.len(),
    ensures
        end_of_elements(s, p, xs, j + 1) == end_of_elements(s, p, ys, j),
    decreases ys.len() - j,
{
    assert(xs.skip(1)[j] == xs[j + 1]);
    if j + 1 < ys.len() {
        if let Some(b) = end_of(s, after_space(s, p), ys[j]) {
            if let Some(c) = after_byte(s, b, 0x2c) {
                lemma_moved_elements(s, c, xs, ys, j + 1);
            }
        }
    }
}

proof fn lemma_moved_members(
    s: Seq<u8>,
    p: int,
    ms: Seq<(Seq<u8>, Json)>,
    ns: Seq<(Seq<u8>, Json)>,
    j: int,
)
    requires
        ms.len() == ns.len() + 1,
        ms.skip(1) == ns,
        0 <= j < ns.len(),
    ensures
        end_of_members(s, p, ms, j + 1) == end_of_members(s, p, ns, j),
    decreases ns.len() - j,
{
    assert(ms.skip(1)[j] == ms[j + 1]);
    if j + 1 < ns.len() {
        let k = after_space(s, p) + ns[j].0.len() + 2;
        if let Some(v) = after_byte(s, k, 0x3a) {
            if let Some(b) = end_of(s, after_space(s, v), ns[j].1) {
                if let Some(c) = after_byte(s, b, 0x2c) {
                    lemma_moved_members(s, c, ms, ns, j + 1);
                }
            }
        }
    }
}

/// A value that is read is a document.
proof fn lemma_read_value(s: Seq<u8>, v: int) -> (x: Json)
    requires
        0 <= v,
        after_value(s, v) is Some,
    ensures
        end_of(s, after_space(s, v), x) == after_value(s, v),
        after_space(s, v) < s.len(),
        s[after_space(s, v)] == 0x7b ==> x is Object,
    decreases s.len() - v, 0int,
{
    let q = after_space(s, v);
    lemma_after_space(s, v);
    lemma_value_forward(s, v);
    if s[q] == 0x22 {
        let (raw, end) = text(s, q)->Some_0;
        lemma_read_text(s, q, raw, end);
        Json::Text(raw)
    } else if s[q] == 0x7b {
        Json::Object(lemma_read_members(s, q + 1))
    } else if s[q] == 0x5b {
        Json::Array(lemma_read_elements(s, q + 1))
    } else if s[q] == 0x74 {
        Json::True
    } else if s[q] == 0x66 {
        Json::False
    } else if s[q] == 0x6e {
        Json::Null
    } else {
        let (n, end) = numeral(s, q)->Some_0;
        lemma_numeral(s, q);
        law_numerals_are_numerals(s, q);
        assert(stands_at(s, q, n));
        Json::Numeral(n)
    }
}

proof fn lemma_read_elements(s: Seq<u8>, p: int) -> (xs: Seq<Json>)
    requires
        0 <= p,
        after_elements(s, p) is Some,
    ensures
        xs.len() == 0 ==> after_byte(s, p, 0x5d) == after_elements(s, p),
        xs.len() > 0 ==> end_of_elements(s, p, xs, 0) == after_elements(s, p),
    decreases s.len() - p, 1int,
{
    let q = after_space(s, p);
    lemma_after_space(s, p);
    if holds(s, q, 0x5d) {
        Seq::empty()
    } else {
        let w = forward(q, after_value(s, q))->Some_0;
        let x = lemma_read_value(s, q);
        lemma_after_space(s, w);
        match after_byte(s, w, 0x2c) {
            Some(c) => {
                let rest = lemma_read_elements(s, c);
                let xs = seq![x] + rest;
                assert(xs.skip(1) =~= rest);
                if rest.len() > 0 {
                    lemma_moved_elements(s, c, xs, rest, 0);
                }
                assert(end_of_elements(s, p, xs, 0) == after_elements(s, p));
                xs
            },
            None => {
                let xs = seq![x];
                assert(end_of_elements(s, p, xs, 0) == closed(s, w, 0x5d));
                xs
            },
        }
    }
}

proof fn lemma_read_members(s: Seq<u8>, p: int) -> (ms: Seq<(Seq<u8>, Json)>)
    requires
        0 <= p,
        after_members(s, p) is Some,
    ensures
        ms.len() == 0 ==> after_byte(s, p, 0x7d) == after_members(s, p),
        ms.len() > 0 ==> end_of_members(s, p, ms, 0) == after_members(s, p),
    decreases s.len() - p, 1int,
{
    let q = after_space(s, p);
    lemma_after_space(s, p);
    lemma_key(s, p);
    if holds(s, q, 0x7d) {
        Seq::empty()
    } else {
        let (name, v) = key(s, q)->Some_0;
        let k = text(s, q)->Some_0.1;
        lemma_read_text(s, q, name, k);
        let w = forward(v, after_value(s, v))->Some_0;
        lemma_value_forward(s, v);
        let x = lemma_read_value(s, v);
        lemma_after_space(s, w);
        match after_byte(s, w, 0x2c) {
            Some(c) => {
                let rest = lemma_read_members(s, c);
                let ms = seq![(name, x)] + rest;
                assert(ms.skip(1) =~= rest);
                if rest.len() > 0 {
                    lemma_moved_members(s, c, ms, rest, 0);
                }
                assert(end_of_members(s, p, ms, 0) == after_members(s, p));
                ms
            },
            None => {
                let ms = seq![(name, x)];
                assert(end_of_members(s, p, ms, 0) == closed(s, w, 0x7d));
                ms
            },
        }
    }
}

/// A text, a numeral and a truth are values.
proof fn lemma_simple_values(s: Seq<u8>, v: int)
    requires
        0 <= v,
    ensures
        text(s, v) matches Some((_, q)) ==> after_value(s, v) == Some(q),
        numeral(s, v) matches Some((_, q)) ==> after_value(s, v) == Some(q),
        truth(s, v) matches Some((_, q)) ==> after_value(s, v) == Some(q),
{
    let p = after_space(s, v);
    lemma_after_space(s, v);
    lemma_words();
    lemma_first_letters(s, p);
    if numeral_end(s, p) is Some {
        lemma_numeral(s, v);
        assert(s[p] == 0x2d || s[p] == 0x2e || 0x30 <= s[p] <= 0x39);
    }
}

proof fn lemma_list_is_array(s: Seq<u8>, p: int, known: Seq<Seq<u8>>)
    requires
        0 <= p,
    ensures
        merchant_list(s, p, known) matches Some((_, q)) ==> after_elements(s, p) == Some(q),
    decreases s.len() - p,
{
    let q = after_space(s, p);
    lemma_after_space(s, p);
    if !holds(s, q, 0x5d) {
        lemma_text(s, q);
        lemma_simple_values(s, q);
        if let Some((merchant, w)) = text(s, q) {
            let grown = if known.len() < MAX_KNOWN_MERCHANTS {
                known.push(merchant)
            } else {
                known
            };
            lemma_after_space(s, w);
            if let Some(c) = after_byte(s, w, 0x2c) {
                lemma_list_is_array(s, c, grown);
            }
        }
    }
}

proof fn lemma_member_is_value(
    section: Section,
    name: Seq<u8>,
    s: Seq<u8>,
    v: int,
    t: Transaction,
)
    requires
        0 <= v,
    ensures
        member(section, name, s, v, t) matches Some((_, q)) ==> after_value(s, v) == Some(q),
{
    lemma_simple_values(s, v);
    lemma_after_space(s, v);
    if let Some(q) = after_byte(s, v, 0x5b) {
        lemma_list_is_array(s, q, t.known_merchants);
    }
}

proof fn lemma_section_is_object(section: Section, s: Seq<u8>, p: int, t: Transaction)
    requires
        0 <= p,
    ensures
        members(section, s, p, t) matches Some((_, q)) ==> after_members(s, p) == Some(q),
    decreases s.len() - p,
{
    let q = after_space(s, p);
    lemma_key(s, p);
    lemma_after_space(s, p);
    if !holds(s, q, 0x7d) {
        if let Some((name, v)) = key(s, q) {
            lemma_member_is_value(section, name, s, v, t);
            lemma_member_forward(section, name, s, v, t);
            if let Some((u, w)) = member(section, name, s, v, t) {
                lemma_after_space(s, w);
                if let Some(c) = after_byte(s, w, 0x2c) {
                    lemma_section_is_object(section, s, c, u);
                }
            }
        }
    }
}

proof fn lemma_root_member_is_value(name: Seq<u8>, s: Seq<u8>, v: int, t: Transaction)
    requires
        0 <= v,
    ensures
        root_member(name, s, v, t) matches Some((_, q)) ==> after_value(s, v) == Some(q),
{
    let p = after_space(s, v);
    lemma_after_space(s, v);
    lemma_words();
    lemma_first_letters(s, p);
    if let Some(q) = after_byte(s, v, 0x7b) {
        lemma_section_is_object(Section::Transaction, s, q, t);
        lemma_section_is_object(Section::Customer, s, q, t);
        lemma_section_is_object(Section::Merchant, s, q, t);
        lemma_section_is_object(Section::Terminal, s, q, t);
        lemma_section_is_object(Section::LastTransaction, s, q, t);
    }
}

proof fn lemma_payload_is_object(s: Seq<u8>, p: int, t: Transaction)
    requires
        0 <= p,
    ensures
        root_members(s, p, t) matches Some((_, q)) ==> after_members(s, p) == Some(q),
    decreases s.len() - p,
{
    let q = after_space(s, p);
    lemma_key(s, p);
    lemma_after_space(s, p);
    if !holds(s, q, 0x7d) {
        if let Some((name, v)) = key(s, q) {
            lemma_root_member_is_value(name, s, v, t);
            lemma_root_member_forward(name, s, v, t);
            if let Some((u, w)) = root_member(name, s, v, t) {
                lemma_after_space(s, w);
                if let Some(c) = after_byte(s, w, 0x2c) {
                    lemma_payload_is_object(s, c, u);
                }
            }
        }
    }
}

/// What is read as a transaction begins with an object, every part of it written as it should
/// be, and says of the transaction what the object says. Nothing else is read.
pub proof fn law_what_is_read_is_a_document(s: Seq<u8>)
    requires
        transaction_of(s) is Some,
    ensures
        exists|x: Json|
            #![trigger transaction_in(x)]
            x is Object && end_of(s, after_space(s, 0), x) is Some && transaction_in(x)
                == transaction_of(s),
{
    let p = after_space(s, 0);
    lemma_after_space(s, 0);
    lemma_payload_is_object(s, p + 1, blank());
    assert(after_value(s, 0) == after_members(s, p + 1));
    let x = lemma_read_value(s, 0);
    let q = end_of(s, p, x)->Some_0;
    crate::documents::lemma_beginning(s, q, x);
    assert(transaction_in(x) == transaction_of(s));
}

} // verus!
