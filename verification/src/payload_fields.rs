//! What a payload says, field by field.
use vstd::prelude::*;
use vstd::string::StringSliceAdditionalSpecFns;

verus! {

use crate::documents::{
    distinct_keys, has_no_repeats, is_unescaped, member_in, merchants_in, section_in,
    transaction_in, with_member, with_members, Json, Place,
};
use crate::grammar::{blank, decimal, with_section, Section, Transaction};
use crate::payload_laws::{is_plain, section_of};

/// `into` with the field that the member `name` of `section` gives as `from` has it.
spec fn with_field(
    section: Section,
    name: Seq<u8>,
    from: Transaction,
    into: Transaction,
) -> Transaction {
    match section {
        Section::Transaction => if name == "amount".spec_bytes() {
            Transaction { amount: from.amount, ..into }
        } else if name == "installments".spec_bytes() {
            Transaction { installments: from.installments, ..into }
        } else if name == "requested_at".spec_bytes() {
            Transaction { requested_at: from.requested_at, ..into }
        } else {
            into
        },
        Section::Customer => if name == "avg_amount".spec_bytes() {
            Transaction { customer_avg_amount: from.customer_avg_amount, ..into }
        } else if name == "tx_count_24h".spec_bytes() {
            Transaction { tx_count_24h: from.tx_count_24h, ..into }
        } else if name == "known_merchants".spec_bytes() {
            Transaction { known_merchants: from.known_merchants, ..into }
        } else {
            into
        },
        Section::Merchant => if name == "id".spec_bytes() {
            Transaction { merchant_id: from.merchant_id, ..into }
        } else if name == "mcc".spec_bytes() {
            Transaction { merchant_mcc: from.merchant_mcc, ..into }
        } else if name == "avg_amount".spec_bytes() {
            Transaction { merchant_avg_amount: from.merchant_avg_amount, ..into }
        } else {
            into
        },
        Section::Terminal => if name == "is_online".spec_bytes() {
            Transaction { is_online: from.is_online, ..into }
        } else if name == "card_present".spec_bytes() {
            Transaction { card_present: from.card_present, ..into }
        } else if name == "km_from_home".spec_bytes() {
            Transaction { km_from_home: from.km_from_home, ..into }
        } else {
            into
        },
        Section::LastTransaction => if name == "timestamp".spec_bytes() {
            Transaction { last_timestamp: from.last_timestamp, ..into }
        } else if name == "km_from_current".spec_bytes() {
            Transaction { last_km_from_current: from.last_km_from_current, ..into }
        } else {
            into
        },
    }
}

/// The names of the fields differ, so that each is set by one member.
proof fn lemma_names_differ()
    ensures
        "amount".spec_bytes() != "installments".spec_bytes(),
        "amount".spec_bytes() != "requested_at".spec_bytes(),
        "installments".spec_bytes() != "requested_at".spec_bytes(),
        "avg_amount".spec_bytes() != "tx_count_24h".spec_bytes(),
        "avg_amount".spec_bytes() != "known_merchants".spec_bytes(),
        "tx_count_24h".spec_bytes() != "known_merchants".spec_bytes(),
        "id".spec_bytes() != "mcc".spec_bytes(),
        "id".spec_bytes() != "avg_amount".spec_bytes(),
        "mcc".spec_bytes() != "avg_amount".spec_bytes(),
        "is_online".spec_bytes() != "card_present".spec_bytes(),
        "is_online".spec_bytes() != "km_from_home".spec_bytes(),
        "card_present".spec_bytes() != "km_from_home".spec_bytes(),
        "timestamp".spec_bytes() != "km_from_current".spec_bytes(),
        "transaction".spec_bytes() != "customer".spec_bytes(),
        "transaction".spec_bytes() != "merchant".spec_bytes(),
        "transaction".spec_bytes() != "terminal".spec_bytes(),
        "transaction".spec_bytes() != "last_transaction".spec_bytes(),
        "customer".spec_bytes() != "merchant".spec_bytes(),
        "customer".spec_bytes() != "terminal".spec_bytes(),
        "customer".spec_bytes() != "last_transaction".spec_bytes(),
        "merchant".spec_bytes() != "terminal".spec_bytes(),
        "merchant".spec_bytes() != "last_transaction".spec_bytes(),
        "terminal".spec_bytes() != "last_transaction".spec_bytes(),
{
    reveal_strlit("amount");
    reveal_strlit("installments");
    reveal_strlit("requested_at");
    reveal_strlit("avg_amount");
    reveal_strlit("tx_count_24h");
    reveal_strlit("known_merchants");
    reveal_strlit("id");
    reveal_strlit("mcc");
    reveal_strlit("is_online");
    reveal_strlit("card_present");
    reveal_strlit("km_from_home");
    reveal_strlit("timestamp");
    reveal_strlit("km_from_current");
    reveal_strlit("transaction");
    reveal_strlit("customer");
    reveal_strlit("merchant");
    reveal_strlit("terminal");
    reveal_strlit("last_transaction");
    vstd::utf8::is_ascii_chars_encode_utf8("amount"@);
    vstd::utf8::is_ascii_chars_encode_utf8("installments"@);
    vstd::utf8::is_ascii_chars_encode_utf8("requested_at"@);
    vstd::utf8::is_ascii_chars_encode_utf8("avg_amount"@);
    vstd::utf8::is_ascii_chars_encode_utf8("tx_count_24h"@);
    vstd::utf8::is_ascii_chars_encode_utf8("known_merchants"@);
    vstd::utf8::is_ascii_chars_encode_utf8("id"@);
    vstd::utf8::is_ascii_chars_encode_utf8("mcc"@);
    vstd::utf8::is_ascii_chars_encode_utf8("is_online"@);
    vstd::utf8::is_ascii_chars_encode_utf8("card_present"@);
    vstd::utf8::is_ascii_chars_encode_utf8("km_from_home"@);
    vstd::utf8::is_ascii_chars_encode_utf8("timestamp"@);
    vstd::utf8::is_ascii_chars_encode_utf8("km_from_current"@);
    vstd::utf8::is_ascii_chars_encode_utf8("transaction"@);
    vstd::utf8::is_ascii_chars_encode_utf8("customer"@);
    vstd::utf8::is_ascii_chars_encode_utf8("merchant"@);
    vstd::utf8::is_ascii_chars_encode_utf8("terminal"@);
    vstd::utf8::is_ascii_chars_encode_utf8("last_transaction"@);
    assert("transaction".spec_bytes()[0] == 't' as u8);
    assert("customer".spec_bytes()[0] == 'c' as u8);
    assert("merchant".spec_bytes()[0] == 'm' as u8);
    assert("terminal".spec_bytes()[0] == 't' as u8);
    assert("last_transaction".spec_bytes()[0] == 'l' as u8);
    assert("amount".spec_bytes()[0] == 'a' as u8);
    assert("id".spec_bytes()[0] == 'i' as u8);
    assert("mcc".spec_bytes()[0] == 'm' as u8);
    assert("is_online".spec_bytes()[0] == 'i' as u8);
    assert("card_present".spec_bytes()[0] == 'c' as u8);
    assert("installments".spec_bytes()[0] == 'i' as u8);
    assert("requested_at".spec_bytes()[0] == 'r' as u8);
    assert("km_from_home".spec_bytes()[0] == 'k' as u8);
}

/// A member sets no field but its own.
proof fn lemma_other_fields_stay(
    section: Section,
    name: Seq<u8>,
    other: Seq<u8>,
    x: Json,
    t: Transaction,
)
    requires
        name != other,
    ensures
        member_in(section, other, x, t) matches Some(u) ==> with_field(section, name, t, u) == u,
{
}

proof fn lemma_other_members_leave_it(
    section: Section,
    name: Seq<u8>,
    t: Transaction,
    ms: Seq<(Seq<u8>, Json)>,
)
    requires
        forall|i: int| 0 <= i < ms.len() ==> (#[trigger] ms[i]).0 != name,
    ensures
        with_members(Place::Inside(section), Some(t), ms) matches Some(u) ==> with_field(
            section,
            name,
            t,
            u,
        ) == u,
    decreases ms.len(),
{
    let place = Place::Inside(section);
    if ms.len() > 0 {
        let rest = ms.drop_first();
        assert(ms[0].0 != name);
        lemma_other_fields_stay(section, name, ms[0].0, ms[0].1, t);
        assert forall|i: int| 0 <= i < rest.len() implies (#[trigger] rest[i]).0 != name by {
            assert(rest[i] == ms[i + 1]);
        }
        match with_member(place, Some(t), ms[0]) {
            Some(v) => {
                lemma_other_members_leave_it(section, name, v, rest);
            },
            None => {
                crate::documents::lemma_none_stays(place, rest);
            },
        }
    } else {
        assert(with_field(section, name, t, t) == t);
    }
}

/// A field of a section is what the member of its name says.
proof fn lemma_field_in_section(
    section: Section,
    t: Transaction,
    fs: Seq<(Seq<u8>, Json)>,
    j: int,
    r: Transaction,
)
    requires
        0 <= j < fs.len(),
        distinct_keys(fs),
        with_members(Place::Inside(section), Some(t), fs) == Some(r),
    ensures
        member_in(section, fs[j].0, fs[j].1, t) matches Some(u) && with_field(
            section,
            fs[j].0,
            u,
            r,
        ) == r,
{
    let place = Place::Inside(section);
    let rest = fs.remove(j);
    crate::documents::lemma_taken_first(place, Some(t), fs, j);
    match with_member(place, Some(t), fs[j]) {
        Some(u) => {
            assert forall|i: int| 0 <= i < rest.len() implies (#[trigger] rest[i]).0
                != fs[j].0 by {
                if i < j {
                    assert(rest[i] == fs[i]);
                } else {
                    assert(rest[i] == fs[i + 1]);
                }
            }
            lemma_other_members_leave_it(section, fs[j].0, u, rest);
        },
        None => {
            crate::documents::lemma_none_stays(place, rest);
        },
    }
}

/// Members that are not `section` leave its fields as they are.
proof fn lemma_other_sections_leave_it(
    section: Section,
    t: Transaction,
    ms: Seq<(Seq<u8>, Json)>,
)
    requires
        forall|i: int| 0 <= i < ms.len() ==> section_of((#[trigger] ms[i]).0) != Some(section),
    ensures
        with_members(Place::Payload, Some(t), ms) matches Some(u) ==> with_section(section, t, u)
            == u,
    decreases ms.len(),
{
    let place = Place::Payload;
    if ms.len() > 0 {
        let rest = ms.drop_first();
        assert(section_of(ms[0].0) != Some(section));
        assert forall|i: int| 0 <= i < rest.len() implies section_of((#[trigger] rest[i]).0)
            != Some(section) by {
            assert(rest[i] == ms[i + 1]);
        }
        match with_member(place, Some(t), ms[0]) {
            Some(v) => {
                if let Some(other) = section_of(ms[0].0) {
                    crate::documents::lemma_section_apart(other, ms[0].1, t, t);
                }
                assert(with_section(section, t, v) == v);
                lemma_other_sections_leave_it(section, v, rest);
            },
            None => {
                crate::documents::lemma_none_stays(place, rest);
            },
        }
    } else {
        assert(with_section(section, t, t) == t);
    }
}

/// The fields of a section are what the member of its name says.
proof fn lemma_section_of_payload(
    section: Section,
    t: Transaction,
    ms: Seq<(Seq<u8>, Json)>,
    i: int,
    r: Transaction,
)
    requires
        0 <= i < ms.len(),
        distinct_keys(ms),
        section_of(ms[i].0) == Some(section),
        with_members(Place::Payload, Some(t), ms) == Some(r),
    ensures
        section_in(section, ms[i].1, t) matches Some(u) && with_section(section, u, r) == r,
{
    let place = Place::Payload;
    let rest = ms.remove(i);
    crate::documents::lemma_taken_first(place, Some(t), ms, i);
    match with_member(place, Some(t), ms[i]) {
        Some(u) => {
            assert forall|j: int| 0 <= j < rest.len() implies section_of((#[trigger] rest[j]).0)
                != Some(section) by {
                if j < i {
                    assert(rest[j] == ms[j]);
                } else {
                    assert(rest[j] == ms[j + 1]);
                }
                assert(rest[j].0 != ms[i].0);
            }
            lemma_other_sections_leave_it(section, u, rest);
        },
        None => {
            crate::documents::lemma_none_stays(place, rest);
        },
    }
}

/// The merchants of a list are its strings in their order, up to the 64th.
proof fn lemma_merchants_of_list(xs: Seq<Json>, i: int, known: Seq<Seq<u8>>)
    requires
        0 <= i <= xs.len(),
        known.len() <= 64,
        known.len() == 64 || known.len() == i,
        known.len() <= i,
        forall|k: int| 0 <= k < known.len() ==> Json::Text(#[trigger] known[k]) == xs[k],
    ensures
        merchants_in(xs, i, known) matches Some(list) ==> {
            &&& list.len() == if xs.len() < 64 {
                xs.len()
            } else {
                64
            }
            &&& forall|k: int| 0 <= k < list.len() ==> Json::Text(#[trigger] list[k]) == xs[k]
            &&& forall|k: int| i <= k < xs.len() ==> (#[trigger] xs[k]) is Text
        },
    decreases xs.len() - i,
{
    if i < xs.len() {
        if let Json::Text(raw) = xs[i] {
            let grown = if known.len() < 64 {
                known.push(raw)
            } else {
                known
            };
            assert forall|k: int| 0 <= k < grown.len() implies Json::Text(#[trigger] grown[k])
                == xs[k] by {
                if k < known.len() {
                    assert(grown[k] == known[k]);
                }
            }
            lemma_merchants_of_list(xs, i + 1, grown);
        }
    }
}

/// Whether the value that a payload gives is the field of the transaction.
pub open spec fn says(section: Seq<u8>, name: Seq<u8>, value: Json, t: Transaction) -> bool {
    &&& section == "transaction".spec_bytes() ==> {
        &&& name == "amount".spec_bytes() ==> value == Json::Numeral(t.amount)
        &&& name == "installments".spec_bytes() ==> value == Json::Numeral(t.installments)
        &&& name == "requested_at".spec_bytes() ==> value == Json::Text(t.requested_at)
    }
    &&& section == "customer".spec_bytes() ==> {
        &&& name == "avg_amount".spec_bytes() ==> value == Json::Numeral(t.customer_avg_amount)
        &&& name == "tx_count_24h".spec_bytes() ==> value == Json::Numeral(t.tx_count_24h)
        &&& name == "known_merchants".spec_bytes() ==> value is Array && lists(
            value->Array_0,
            t.known_merchants,
        )
    }
    &&& section == "merchant".spec_bytes() ==> {
        &&& name == "id".spec_bytes() ==> value == Json::Text(t.merchant_id)
        &&& name == "mcc".spec_bytes() ==> value is Text && numbers(
            value->Text_0,
            t.merchant_mcc,
        )
        &&& name == "avg_amount".spec_bytes() ==> value == Json::Numeral(t.merchant_avg_amount)
    }
    &&& section == "terminal".spec_bytes() ==> {
        &&& name == "is_online".spec_bytes() ==> value == if t.is_online {
            Json::True
        } else {
            Json::False
        }
        &&& name == "card_present".spec_bytes() ==> value == if t.card_present {
            Json::True
        } else {
            Json::False
        }
        &&& name == "km_from_home".spec_bytes() ==> value == Json::Numeral(t.km_from_home)
    }
    &&& section == "last_transaction".spec_bytes() ==> {
        &&& name == "timestamp".spec_bytes() ==> t.last_timestamp is Some && value == Json::Text(
            t.last_timestamp->Some_0,
        )
        &&& name == "km_from_current".spec_bytes() ==> value == Json::Numeral(
            t.last_km_from_current,
        )
    }
}

/// Whether `merchants` are the strings of a list in their order, or the first 64 of them.
pub open spec fn lists(xs: Seq<Json>, merchants: Seq<Seq<u8>>) -> bool {
    &&& merchants.len() == if xs.len() < 64 {
        xs.len()
    } else {
        64
    }
    &&& forall|k: int| 0 <= k < merchants.len() ==> Json::Text(#[trigger] merchants[k]) == xs[k]
}

/// Whether `category` is the number that digits make, and `usize::MAX` for anything else.
pub open spec fn numbers(raw: Seq<u8>, category: usize) -> bool {
    let digits = forall|i: int| 0 <= i < raw.len() ==> 0x30 <= #[trigger] raw[i] <= 0x39;
    &&& digits && decimal(raw) <= usize::MAX ==> category == decimal(raw)
    &&& !(digits && decimal(raw) <= usize::MAX) ==> category == usize::MAX
}

/// What a payload says of a transaction in the members of its sections is what is read of
/// it: numbers and strings as they stand, the known merchants in their order, the category
/// by its number, and whether the terminal is online and the card was present. No key may be
/// repeated within an object.
pub proof fn law_fields_are_what_the_payload_says(
    ms: Seq<(Seq<u8>, Json)>,
    i: int,
    fs: Seq<(Seq<u8>, Json)>,
    j: int,
)
    requires
        has_no_repeats(Json::Object(ms)),
        0 <= i < ms.len(),
        ms[i].1 == Json::Object(fs),
        0 <= j < fs.len(),
    ensures
        transaction_in(Json::Object(ms)) matches Some(t) ==> says(ms[i].0, fs[j].0, fs[j].1, t),
{
    if let Some(t) = transaction_in(Json::Object(ms)) {
        lemma_fields(ms, i, fs, j, t);
    }
}

proof fn lemma_fields(
    ms: Seq<(Seq<u8>, Json)>,
    i: int,
    fs: Seq<(Seq<u8>, Json)>,
    j: int,
    t: Transaction,
)
    requires
        has_no_repeats(Json::Object(ms)),
        0 <= i < ms.len(),
        ms[i].1 == Json::Object(fs),
        0 <= j < fs.len(),
        with_members(Place::Payload, Some(blank()), ms) == Some(t),
    ensures
        says(ms[i].0, fs[j].0, fs[j].1, t),
{
    lemma_names_differ();
    assert(has_no_repeats(ms[i].1));
    assert(distinct_keys(fs));
    if let Some(section) = section_of(ms[i].0) {
        lemma_section_of_payload(section, blank(), ms, i, t);
        let r = section_in(section, ms[i].1, blank())->Some_0;
        lemma_field_in_section(section, blank(), fs, j, r);
        if let Json::Array(xs) = fs[j].1 {
            lemma_merchants_of_list(xs, 0, Seq::empty());
        }
        if let Json::Text(raw) = fs[j].1 {
            crate::grammar::law_categories_are_their_numbers(raw);
        }
        lemma_says(section, ms[i].0, fs[j].0, fs[j].1, r, t);
    }
}

proof fn lemma_says(
    section: Section,
    key: Seq<u8>,
    name: Seq<u8>,
    value: Json,
    r: Transaction,
    t: Transaction,
)
    requires
        section_of(key) == Some(section),
        member_in(section, name, value, blank()) matches Some(u) && with_field(section, name, u, r)
            == r,
        with_section(section, r, t) == t,
        value matches Json::Array(xs) ==> (merchants_in(xs, 0, Seq::empty()) matches Some(list)
            ==> lists(xs, list)),
        value matches Json::Text(raw) ==> numbers(raw, crate::grammar::category(raw)),
    ensures
        says(key, name, value, t),
{
    lemma_names_differ();
    let u = member_in(section, name, value, blank())->Some_0;
    match section {
        Section::Transaction => {
            assert(t.amount == r.amount && t.installments == r.installments && t.requested_at
                == r.requested_at);
        },
        Section::Customer => {
            assert(t.customer_avg_amount == r.customer_avg_amount && t.tx_count_24h
                == r.tx_count_24h && t.known_merchants == r.known_merchants);
        },
        Section::Merchant => {
            assert(t.merchant_id == r.merchant_id && t.merchant_mcc == r.merchant_mcc
                && t.merchant_avg_amount == r.merchant_avg_amount);
        },
        Section::Terminal => {
            assert(t.is_online == r.is_online && t.card_present == r.card_present
                && t.km_from_home == r.km_from_home);
        },
        Section::LastTransaction => {
            assert(t.last_timestamp == r.last_timestamp && t.last_km_from_current
                == r.last_km_from_current);
        },
    }
}

/// Whether a field of which a payload says nothing is as it should be then: zero, empty,
/// false or none.
pub open spec fn says_nothing(section: Seq<u8>, name: Seq<u8>, t: Transaction) -> bool {
    let zero = seq![0x30u8];
    &&& section == "transaction".spec_bytes() ==> {
        &&& name == "amount".spec_bytes() ==> t.amount == zero
        &&& name == "installments".spec_bytes() ==> t.installments == zero
        &&& name == "requested_at".spec_bytes() ==> t.requested_at.len() == 0
    }
    &&& section == "customer".spec_bytes() ==> {
        &&& name == "avg_amount".spec_bytes() ==> t.customer_avg_amount == zero
        &&& name == "tx_count_24h".spec_bytes() ==> t.tx_count_24h == zero
        &&& name == "known_merchants".spec_bytes() ==> t.known_merchants.len() == 0
    }
    &&& section == "merchant".spec_bytes() ==> {
        &&& name == "id".spec_bytes() ==> t.merchant_id.len() == 0
        &&& name == "mcc".spec_bytes() ==> t.merchant_mcc == usize::MAX
        &&& name == "avg_amount".spec_bytes() ==> t.merchant_avg_amount == zero
    }
    &&& section == "terminal".spec_bytes() ==> {
        &&& name == "is_online".spec_bytes() ==> !t.is_online
        &&& name == "card_present".spec_bytes() ==> !t.card_present
        &&& name == "km_from_home".spec_bytes() ==> t.km_from_home == zero
    }
    &&& section == "last_transaction".spec_bytes() ==> {
        &&& name == "timestamp".spec_bytes() ==> t.last_timestamp is None
        &&& name == "km_from_current".spec_bytes() ==> t.last_km_from_current == zero
    }
}

proof fn lemma_zero()
    ensures
        "0".spec_bytes() == seq![0x30u8],
{
    reveal_strlit("0");
    vstd::utf8::is_ascii_chars_encode_utf8("0"@);
    assert("0".spec_bytes() =~= seq![0x30u8]);
}

/// Of what a payload does not name, because a section or a member of it is missing or the
/// last transaction is `null`, nothing is made up. No key may be repeated within an object.
pub proof fn law_nothing_is_made_up(
    ms: Seq<(Seq<u8>, Json)>,
    section: Seq<u8>,
    name: Seq<u8>,
)
    requires
        has_no_repeats(Json::Object(ms)),
        forall|i: int, j: int|
            0 <= i < ms.len() && (#[trigger] ms[i]).0 == section && ms[i].1 is Object && 0 <= j
                < ms[i].1->Object_0.len() ==> (#[trigger] ms[i].1->Object_0[j]).0 != name,
    ensures
        transaction_in(Json::Object(ms)) matches Some(t) ==> says_nothing(section, name, t),
{
    lemma_names_differ();
    lemma_zero();
    if let Some(t) = transaction_in(Json::Object(ms)) {
        if let Some(which) = section_of(section) {
            if exists|i: int| 0 <= i < ms.len() && (#[trigger] ms[i]).0 == section {
                let i = choose|i: int| 0 <= i < ms.len() && (#[trigger] ms[i]).0 == section;
                lemma_section_of_payload(which, blank(), ms, i, t);
                let r = section_in(which, ms[i].1, blank())->Some_0;
                if let Json::Object(fs) = ms[i].1 {
                    assert forall|j: int| 0 <= j < fs.len() implies (#[trigger] fs[j]).0
                        != name by {
                        assert(ms[i].1->Object_0[j].0 != name);
                    }
                    lemma_other_members_leave_it(which, name, blank(), fs);
                }
                assert(with_field(which, name, blank(), r) == r);
                assert(with_section(which, r, t) == t);
                assert(with_field(which, name, blank(), t) == t);
            } else {
                assert forall|i: int| 0 <= i < ms.len() implies section_of((#[trigger] ms[i]).0)
                    != Some(which) by {
                    assert(ms[i].0 != section);
                }
                lemma_other_sections_leave_it(which, blank(), ms);
                assert(with_field(which, name, blank(), t) == t);
            }
        }
    }
}

/// What the value of a member has to be.
pub enum Kind {
    Number,
    Text,
    Truth,
    Merchants,
    Anything,
}

/// What the value of the member `name` of a section has to be.
pub open spec fn kind_of(section: Seq<u8>, name: Seq<u8>) -> Kind {
    if section == "transaction".spec_bytes() {
        if name == "amount".spec_bytes() || name == "installments".spec_bytes() {
            Kind::Number
        } else if name == "requested_at".spec_bytes() {
            Kind::Text
        } else {
            Kind::Anything
        }
    } else if section == "customer".spec_bytes() {
        if name == "avg_amount".spec_bytes() || name == "tx_count_24h".spec_bytes() {
            Kind::Number
        } else if name == "known_merchants".spec_bytes() {
            Kind::Merchants
        } else {
            Kind::Anything
        }
    } else if section == "merchant".spec_bytes() {
        if name == "id".spec_bytes() || name == "mcc".spec_bytes() {
            Kind::Text
        } else if name == "avg_amount".spec_bytes() {
            Kind::Number
        } else {
            Kind::Anything
        }
    } else if section == "terminal".spec_bytes() {
        if name == "is_online".spec_bytes() || name == "card_present".spec_bytes() {
            Kind::Truth
        } else if name == "km_from_home".spec_bytes() {
            Kind::Number
        } else {
            Kind::Anything
        }
    } else if section == "last_transaction".spec_bytes() {
        if name == "timestamp".spec_bytes() {
            Kind::Text
        } else if name == "km_from_current".spec_bytes() {
            Kind::Number
        } else {
            Kind::Anything
        }
    } else {
        Kind::Anything
    }
}

/// Whether a string holds neither a quote nor a backslash.
pub open spec fn needs_no_escape(raw: Seq<u8>) -> bool {
    forall|i: int| 0 <= i < raw.len() ==> #[trigger] raw[i] != 0x22 && raw[i] != 0x5c
}

/// Whether a value is a string that holds neither a quote nor a backslash.
pub open spec fn is_string(x: Json) -> bool {
    x matches Json::Text(raw) && needs_no_escape(raw)
}

/// Whether a value is of a kind.
pub open spec fn is_of(kind: Kind, x: Json) -> bool {
    match kind {
        Kind::Number => x is Numeral,
        Kind::Text => is_string(x),
        Kind::Truth => x is True || x is False,
        Kind::Merchants => x is Array && forall|i: int|
            0 <= i < x->Array_0.len() ==> is_string(#[trigger] x->Array_0[i]),
        Kind::Anything => is_unescaped(x),
    }
}

/// Whether the members of a section are what they have to be.
pub open spec fn is_sound_section(section: Seq<u8>, fs: Seq<(Seq<u8>, Json)>) -> bool {
    forall|j: int|
        0 <= j < fs.len() ==> needs_no_escape((#[trigger] fs[j]).0) && is_of(
            kind_of(section, fs[j].0),
            fs[j].1,
        )
}

/// Whether the name is that of a section.
pub open spec fn names_section(name: Seq<u8>) -> bool {
    name == "transaction".spec_bytes() || name == "customer".spec_bytes() || name
        == "merchant".spec_bytes() || name == "terminal".spec_bytes() || name
        == "last_transaction".spec_bytes()
}

/// Whether a member of a payload is what it has to be: the sections are objects, but for the
/// last transaction, which may be `null`; anything else may stand there.
pub open spec fn is_sound_member(m: (Seq<u8>, Json)) -> bool {
    &&& needs_no_escape(m.0)
    &&& if names_section(m.0) {
        ||| m.1 is Object && is_sound_section(m.0, m.1->Object_0)
        ||| m.0 == "last_transaction".spec_bytes() && m.1 is Null
    } else {
        is_unescaped(m.1)
    }
}

proof fn lemma_kinds(section: Section, key: Seq<u8>, name: Seq<u8>, x: Json, t: Transaction)
    requires
        section_of(key) == Some(section),
    ensures
        member_in(section, name, x, t) is Some <==> is_of(kind_of(key, name), x),
{
    lemma_names_differ();
    if let Json::Array(xs) = x {
        lemma_merchants_are_strings(xs, 0, t.known_merchants);
    }
}

proof fn lemma_merchants_are_strings(xs: Seq<Json>, i: int, known: Seq<Seq<u8>>)
    requires
        0 <= i <= xs.len(),
    ensures
        merchants_in(xs, i, known) is Some <==> forall|k: int|
            i <= k < xs.len() ==> is_string(#[trigger] xs[k]),
    decreases xs.len() - i,
{
    if i < xs.len() {
        if let Json::Text(raw) = xs[i] {
            let grown = if known.len() < crate::grammar::MAX_KNOWN_MERCHANTS {
                known.push(raw)
            } else {
                known
            };
            lemma_merchants_are_strings(xs, i + 1, grown);
            if is_plain(raw) {
                assert(is_string(xs[i]));
            } else {
                assert(!is_string(xs[i]));
            }
        } else {
            assert(!is_string(xs[i]));
        }
    }
}

proof fn lemma_section_kinds(
    section: Section,
    key: Seq<u8>,
    t: Transaction,
    fs: Seq<(Seq<u8>, Json)>,
)
    requires
        section_of(key) == Some(section),
    ensures
        with_members(Place::Inside(section), Some(t), fs) is Some <==> is_sound_section(key, fs),
    decreases fs.len(),
{
    let place = Place::Inside(section);
    if fs.len() > 0 {
        let rest = fs.drop_first();
        lemma_kinds(section, key, fs[0].0, fs[0].1, t);
        assert(is_plain(fs[0].0) == needs_no_escape(fs[0].0));
        match with_member(place, Some(t), fs[0]) {
            Some(u) => {
                lemma_section_kinds(section, key, u, rest);
                if is_sound_section(key, rest) {
                    assert forall|j: int| 0 <= j < fs.len() implies needs_no_escape(
                        (#[trigger] fs[j]).0,
                    ) && is_of(kind_of(key, fs[j].0), fs[j].1) by {
                        if j > 0 {
                            assert(rest[j - 1] == fs[j]);
                        }
                    }
                } else {
                    let j = choose|j: int|
                        0 <= j < rest.len() && !(needs_no_escape((#[trigger] rest[j]).0) && is_of(
                            kind_of(key, rest[j].0),
                            rest[j].1,
                        ));
                    assert(fs[j + 1] == rest[j]);
                }
            },
            None => {
                crate::documents::lemma_none_stays(place, rest);
                assert(!(needs_no_escape(fs[0].0) && is_of(kind_of(key, fs[0].0), fs[0].1)));
            },
        }
    }
}

proof fn lemma_member_sound(t: Transaction, m: (Seq<u8>, Json))
    ensures
        with_member(Place::Payload, Some(t), m) is Some <==> is_sound_member(m),
{
    lemma_names_differ();
    assert(is_plain(m.0) == needs_no_escape(m.0));
    if let Some(section) = section_of(m.0) {
        if let Json::Object(fs) = m.1 {
            lemma_section_kinds(section, m.0, t, fs);
        }
    }
}

proof fn lemma_payload_sound(t: Transaction, ms: Seq<(Seq<u8>, Json)>)
    ensures
        with_members(Place::Payload, Some(t), ms) is Some <==> forall|i: int|
            0 <= i < ms.len() ==> is_sound_member(#[trigger] ms[i]),
    decreases ms.len(),
{
    if ms.len() > 0 {
        let rest = ms.drop_first();
        lemma_member_sound(t, ms[0]);
        match with_member(Place::Payload, Some(t), ms[0]) {
            Some(u) => {
                lemma_payload_sound(u, rest);
                if forall|i: int| 0 <= i < rest.len() ==> is_sound_member(#[trigger] rest[i]) {
                    assert forall|i: int| 0 <= i < ms.len() implies is_sound_member(
                        #[trigger] ms[i],
                    ) by {
                        if i > 0 {
                            assert(rest[i - 1] == ms[i]);
                        }
                    }
                } else {
                    let i = choose|i: int| 0 <= i < rest.len() && !is_sound_member(
                        #[trigger] rest[i],
                    );
                    assert(ms[i + 1] == rest[i]);
                }
            },
            None => {
                crate::documents::lemma_none_stays(Place::Payload, rest);
                assert(!is_sound_member(ms[0]));
            },
        }
    }
}

/// A payload is read where each of its members is what it has to be and it names a time and
/// a merchant, and in no other case. The time is `requested_at` of member `j` of the section
/// at `i`, the merchant the `id` of member `l` of that at `k`.
pub proof fn law_sound_payloads_are_read(
    ms: Seq<(Seq<u8>, Json)>,
    i: int,
    j: int,
    k: int,
    l: int,
)
    requires
        has_no_repeats(Json::Object(ms)),
        forall|n: int| 0 <= n < ms.len() ==> is_sound_member(#[trigger] ms[n]),
        0 <= i < ms.len(),
        ms[i].0 == "transaction".spec_bytes(),
        0 <= j < ms[i].1->Object_0.len(),
        ms[i].1->Object_0[j].0 == "requested_at".spec_bytes(),
        0 <= k < ms.len(),
        ms[k].0 == "merchant".spec_bytes(),
        0 <= l < ms[k].1->Object_0.len(),
        ms[k].1->Object_0[l].0 == "id".spec_bytes(),
    ensures
        transaction_in(Json::Object(ms)) is Some <==> ms[i].1->Object_0[j].1->Text_0.len() > 0
            && ms[k].1->Object_0[l].1->Text_0.len() > 0,
{
    lemma_names_differ();
    lemma_payload_sound(blank(), ms);
    let t = with_members(Place::Payload, Some(blank()), ms)->Some_0;
    assert(is_sound_member(ms[i]));
    assert(is_sound_member(ms[k]));
    lemma_fields(ms, i, ms[i].1->Object_0, j, t);
    lemma_fields(ms, k, ms[k].1->Object_0, l, t);
}

/// A payload with a member that is not what it has to be is refused, whatever else it says.
pub proof fn law_unsound_payloads_are_refused(ms: Seq<(Seq<u8>, Json)>, i: int)
    requires
        0 <= i < ms.len(),
        !is_sound_member(ms[i]),
    ensures
        transaction_in(Json::Object(ms)) is None,
{
    lemma_payload_sound(blank(), ms);
}

/// A payload that names no time or no merchant is refused.
pub proof fn law_time_and_merchant_are_needed(ms: Seq<(Seq<u8>, Json)>)
    requires
        has_no_repeats(Json::Object(ms)),
        ({
            ||| forall|i: int, j: int|
                0 <= i < ms.len() && (#[trigger] ms[i]).0 == "transaction".spec_bytes()
                    && ms[i].1 is Object && 0 <= j < ms[i].1->Object_0.len() ==> (
                #[trigger] ms[i].1->Object_0[j]).0 != "requested_at".spec_bytes()
            ||| forall|i: int, j: int|
                0 <= i < ms.len() && (#[trigger] ms[i]).0 == "merchant".spec_bytes()
                    && ms[i].1 is Object && 0 <= j < ms[i].1->Object_0.len() ==> (
                #[trigger] ms[i].1->Object_0[j]).0 != "id".spec_bytes()
        }),
    ensures
        transaction_in(Json::Object(ms)) is None,
{
    lemma_names_differ();
    if forall|i: int, j: int|
        0 <= i < ms.len() && (#[trigger] ms[i]).0 == "transaction".spec_bytes() && ms[i].1 is Object
            && 0 <= j < ms[i].1->Object_0.len() ==> (#[trigger] ms[i].1->Object_0[j]).0
            != "requested_at".spec_bytes() {
        law_nothing_is_made_up(ms, "transaction".spec_bytes(), "requested_at".spec_bytes());
    } else {
        law_nothing_is_made_up(ms, "merchant".spec_bytes(), "id".spec_bytes());
    }
}

} // verus!
