//! What the features of a transaction take from its timestamps, its merchant and its
//! terminal.
use crate::bytes::same_bytes;
use crate::config::{risk_in, UNKNOWN_RISK};
use crate::json::ParsedTransaction;
use crate::normalization::{
    day_of_week_bytes, hour_of_day_bytes, minutes_diff_bytes, parse_u32_4, two_at,
};
use vstd::prelude::*;
use vstd::slice::slice_subrange;

verus! {

use crate::calendar::weekday;
use crate::grammar::Transaction;
use crate::normalization::{
    date_readable, day_of, hour_of, hour_readable, minutes_between, minutes_readable, month_of,
    two_readable, weekday_readable, year_of,
};

/// What the features take from the timestamps, the merchant and the terminal of a
/// transaction. The risk is a single precision number, bit for bit.
#[derive(Clone, Copy, Debug, PartialEq, Eq, Structural)]
pub struct Facts {
    pub hour: u8,
    pub weekday: u8,
    pub minutes_since_last: Option<u64>,
    pub is_online: bool,
    pub card_present: bool,
    pub unknown_merchant: bool,
    pub mcc_risk: u32,
}

/// Whether the hour and the weekday of a request can be read and, where a last transaction
/// is known, the minutes between the two.
pub open spec fn datable(requested_at: Seq<u8>, last: Option<Seq<u8>>) -> bool {
    &&& hour_readable(requested_at)
    &&& weekday_readable(requested_at)
    &&& last matches Some(b) ==> minutes_readable(requested_at) && minutes_readable(b)
}

/// Whether the two bytes at `at` make a number that fits into a byte.
fn can_read_two(b: &[u8], at: usize) -> (r: bool)
    requires
        at <= 14,
    ensures
        r == two_readable(b@, at as int),
{
    if b.len() < at + 2 || b[at] < 0x30 || b[at + 1] < 0x30 {
        return false;
    }
    (b[at] - 0x30) as u32 * 10 + (b[at + 1] - 0x30) as u32 <= 255
}

/// Whether the date can be read and has a month that exists.
fn can_read_date(b: &[u8]) -> (r: bool)
    ensures
        r == date_readable(b@),
{
    if b.len() < 4 || b[0] < 0x30 || b[1] < 0x30 || b[2] < 0x30 || b[3] < 0x30 {
        return false;
    }
    if !can_read_two(b, 5) || !can_read_two(b, 8) {
        return false;
    }
    let month = two_at(b, 5);
    1 <= month && month <= 12
}

/// Whether the features can be taken from these timestamps.
pub fn is_datable(requested_at: &[u8], last: Option<&[u8]>) -> (r: bool)
    ensures
        r == datable(
            requested_at@,
            match last {
                Some(b) => Some(b@),
                None => None,
            },
        ),
{
    if !can_read_two(requested_at, 11) || !can_read_date(requested_at) {
        return false;
    }
    if two_at(requested_at, 5) < 3 && parse_u32_4(slice_subrange(requested_at, 0, 4)) < 1 {
        return false;
    }
    match last {
        Some(b) => can_read_two(requested_at, 14) && can_read_date(b) && can_read_two(b, 11)
            && can_read_two(b, 14),
        None => true,
    }
}

/// Whether a merchant is among the known ones.
pub open spec fn knows(known: Seq<Seq<u8>>, id: Seq<u8>) -> bool {
    exists|i: int| 0 <= i < known.len() && #[trigger] known[i] == id
}

/// Whether a merchant is among the first `n` of `known`.
pub fn is_known_merchant(known: &[&[u8]], n: usize, id: &[u8]) -> (r: bool)
    requires
        n <= known@.len(),
    ensures
        r == knows(Seq::new(n as nat, |i: int| known@[i]@), id@),
{
    let ghost list = Seq::new(n as nat, |i: int| known@[i]@);
    let mut i: usize = 0;
    while i < n
        invariant
            i <= n <= known@.len(),
            list == Seq::new(n as nat, |i: int| known@[i]@),
            forall|j: int| 0 <= j < i ==> #[trigger] list[j] != id@,
        decreases n - i,
    {
        assert(list[i as int] == known@[i as int]@);
        if same_bytes(known[i], id) {
            return true;
        }
        i += 1;
    }
    false
}

/// What the features take from a transaction, with the risks of merchant categories in
/// `table`.
pub open spec fn facts_of(t: Transaction, table: Seq<u32>) -> Facts {
    Facts {
        hour: hour_of(t.requested_at) as u8,
        weekday: weekday(
            year_of(t.requested_at),
            month_of(t.requested_at),
            day_of(t.requested_at),
        ) as u8,
        minutes_since_last: match t.last_timestamp {
            Some(last) => Some(minutes_between(t.requested_at, last) as u64),
            None => None,
        },
        is_online: t.is_online,
        card_present: t.card_present,
        unknown_merchant: !knows(t.known_merchants, t.merchant_id),
        mcc_risk: if t.merchant_mcc < table.len() {
            table[t.merchant_mcc as int]
        } else {
            UNKNOWN_RISK
        },
    }
}

/// What the features take from a transaction.
pub fn facts(t: &ParsedTransaction<'_>, table: &[u32]) -> (r: Facts)
    requires
        t.wf(),
        datable(t@.requested_at, t@.last_timestamp),
    ensures
        r == facts_of(t@, table@),
        r.is_online == t.is_online,
        r.card_present == t.card_present,
        r.unknown_merchant <==> forall|i: int|
            0 <= i < t.known_merchants_len ==> (#[trigger] t.known_merchants@[i])@
                != t.merchant_id@,
        t.merchant_mcc < table.len() ==> r.mcc_risk == table@[t.merchant_mcc as int],
        r.minutes_since_last is Some <==> t.last_timestamp is Some,
{
    let minutes_since_last: Option<u64> = match t.last_timestamp {
        Some(last) => Some(minutes_diff_bytes(t.requested_at, last)),
        None => None,
    };
    let known = is_known_merchant(
        t.known_merchants.as_slice(),
        t.known_merchants_len,
        t.merchant_id,
    );
    proof {
        assert(t@.known_merchants =~= Seq::new(
            t.known_merchants_len as nat,
            |i: int| t.known_merchants@[i]@,
        ));
        if !known {
            assert forall|i: int| 0 <= i < t.known_merchants_len implies (
            #[trigger] t.known_merchants@[i])@ != t.merchant_id@ by {
                assert(t@.known_merchants[i] != t@.merchant_id);
            }
        } else {
            let i = choose|i: int|
                0 <= i < t@.known_merchants.len() && #[trigger] t@.known_merchants[i]
                    == t@.merchant_id;
            assert(t.known_merchants@[i]@ == t.merchant_id@);
        }
    }
    Facts {
        hour: hour_of_day_bytes(t.requested_at),
        weekday: day_of_week_bytes(t.requested_at),
        minutes_since_last,
        is_online: t.is_online,
        card_present: t.card_present,
        unknown_merchant: !known,
        mcc_risk: risk_in(table, t.merchant_mcc),
    }
}

/// A merchant is unknown exactly when none of the known merchants has its name.
pub proof fn law_unknown_merchants(t: Transaction, table: Seq<u32>)
    ensures
        facts_of(t, table).unknown_merchant <==> forall|i: int|
            0 <= i < t.known_merchants.len() ==> #[trigger] t.known_merchants[i] != t.merchant_id,
{
}

/// A merchant that is added to the known ones is known, and stays so whoever else is added;
/// adding another makes no merchant known.
pub proof fn law_merchants_become_known(t: Transaction, table: Seq<u32>, name: Seq<u8>)
    ensures
        ({
            let more = Transaction { known_merchants: t.known_merchants.push(name), ..t };
            facts_of(more, table).unknown_merchant <==> facts_of(t, table).unknown_merchant && name
                != t.merchant_id
        }),
        facts_of(
            Transaction { known_merchants: Seq::empty(), ..t },
            table,
        ).unknown_merchant,
{
    let grown = t.known_merchants.push(name);
    assert(grown[t.known_merchants.len() as int] == name);
    assert forall|i: int| 0 <= i < t.known_merchants.len() implies #[trigger] grown[i]
        == t.known_merchants[i] by {}
    if knows(t.known_merchants, t.merchant_id) {
        let i = choose|i: int|
            0 <= i < t.known_merchants.len() && #[trigger] t.known_merchants[i] == t.merchant_id;
        assert(grown[i] == t.merchant_id);
    }
    if knows(grown, t.merchant_id) {
        let i = choose|i: int| 0 <= i < grown.len() && #[trigger] grown[i] == t.merchant_id;
        if i < t.known_merchants.len() {
            assert(t.known_merchants[i] == t.merchant_id);
        }
    }
}

/// The hour is that which stands behind the date, the terminal's flags are taken over, the
/// risk is that of the category in the table, or one half where the table does not have it,
/// and there are minutes since the last transaction where there was one.
pub proof fn law_facts_are_those_of_the_transaction(t: Transaction, table: Seq<u32>)
    requires
        datable(t.requested_at, t.last_timestamp),
    ensures
        facts_of(t, table).hour == 10 * (t.requested_at[11] - 0x30) + (t.requested_at[12] - 0x30),
        facts_of(t, table).is_online == t.is_online,
        facts_of(t, table).card_present == t.card_present,
        t.merchant_mcc < table.len() ==> facts_of(t, table).mcc_risk
            == table[t.merchant_mcc as int],
        t.merchant_mcc >= table.len() ==> crate::single::value_of(facts_of(t, table).mcc_risk) * 2
            == crate::single::value_of(0x3f80_0000),
        t.last_timestamp is None ==> facts_of(t, table).minutes_since_last is None,
        t.last_timestamp is Some ==> facts_of(t, table).minutes_since_last is Some,
{
    vstd::arithmetic::power2::lemma_pow2_unfold(126);
    assert(crate::single::exponent_of(0x3f00_0000) == 126);
    assert(crate::single::exponent_of(0x3f80_0000) == 127);
    assert(crate::single::fraction_of(0x3f00_0000) == 0);
    assert(crate::single::fraction_of(0x3f80_0000) == 0);
}

/// The day of the week is that of the date of the request, counted from the first of January
/// 2000, a Saturday, and the minutes since the last transaction are those between the two.
pub proof fn law_dates_of_the_facts(t: Transaction, table: Seq<u32>)
    requires
        datable(t.requested_at, t.last_timestamp),
    ensures
        ({
            let b = t.requested_at;
            let year = 1000 * (b[0] - 0x30) + 100 * (b[1] - 0x30) + 10 * (b[2] - 0x30) + (b[3]
                - 0x30);
            let month = 10 * (b[5] - 0x30) + (b[6] - 0x30);
            let day = 10 * (b[8] - 0x30) + (b[9] - 0x30);
            facts_of(t, table).weekday == (5 + crate::calendar::day_number(year, month, day)
                - crate::calendar::day_number(2000, 1, 1)) % 7
        }),
        t.last_timestamp matches Some(last) ==> facts_of(t, table).minutes_since_last
            matches Some(m) && {
            let ahead = crate::normalization::minutes_of(t.requested_at)
                - crate::normalization::minutes_of(last);
            m == ahead || m == -ahead
        },
{
    let b = t.requested_at;
    crate::calendar::law_weekdays_from_2000(year_of(b), month_of(b), day_of(b));
    if let Some(last) = t.last_timestamp {
        crate::normalization::lemma_minutes_fit(t.requested_at);
        crate::normalization::lemma_minutes_fit(last);
    }
}

/// Whether a digit stands at `i`.
pub open spec fn digit_at(b: Seq<u8>, i: int) -> bool {
    0x30 <= b[i] <= 0x39
}

/// Whether a timestamp has digits where a date, an hour and a minute have them, and a month
/// from 1 to 12 of a year from 1 on.
pub open spec fn is_proper(b: Seq<u8>) -> bool {
    &&& b.len() >= 16
    &&& digit_at(b, 0) && digit_at(b, 1) && digit_at(b, 2) && digit_at(b, 3)
    &&& digit_at(b, 5) && digit_at(b, 6)
    &&& digit_at(b, 8) && digit_at(b, 9)
    &&& digit_at(b, 11) && digit_at(b, 12)
    &&& digit_at(b, 14) && digit_at(b, 15)
    &&& 1 <= 10 * (b[5] - 0x30) + (b[6] - 0x30) <= 12
    &&& !(b[0] == 0x30 && b[1] == 0x30 && b[2] == 0x30 && b[3] == 0x30)
}

/// The features can be taken from every transaction with proper timestamps.
pub proof fn law_proper_timestamps_are_datable(requested_at: Seq<u8>, last: Option<Seq<u8>>)
    requires
        is_proper(requested_at),
        last matches Some(b) ==> is_proper(b),
    ensures
        datable(requested_at, last),
{
}

} // verus!
