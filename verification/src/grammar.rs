//! What a transaction payload means: its grammar, read forward from a position.
use crate::bytes::{is_digit, stands_at};
use vstd::prelude::*;
use vstd::string::StringSliceAdditionalSpecFns;

verus! {

/// How many known merchants of a customer are kept; further ones are read and dropped.
pub const MAX_KNOWN_MERCHANTS: usize = 64;

// ---------------------------------------------------------------------------
// The grammar. Every function takes the input and a position in it; those that
// read something give the position behind what they read, or `None`.
// ---------------------------------------------------------------------------

pub open spec fn is_space(b: u8) -> bool {
    b == 0x20 || b == 0x0a || b == 0x0d || b == 0x09
}

/// Whether the byte at `p` is `b`.
pub open spec fn holds(s: Seq<u8>, p: int, b: u8) -> bool {
    0 <= p < s.len() && s[p] == b
}

/// The first position from `p` on that is not whitespace.
pub open spec fn after_space(s: Seq<u8>, p: int) -> int
    decreases s.len() - p,
{
    if 0 <= p < s.len() && is_space(s[p]) {
        after_space(s, p + 1)
    } else {
        p
    }
}

/// The position behind the byte `b`, which whitespace may precede.
pub open spec fn after_byte(s: Seq<u8>, p: int, b: u8) -> Option<int> {
    let q = after_space(s, p);
    if holds(s, q, b) {
        Some(q + 1)
    } else {
        None
    }
}

/// The first position from `p` on that holds a quote, unless a backslash comes first.
pub open spec fn closing_quote(s: Seq<u8>, p: int) -> Option<int>
    decreases s.len() - p,
{
    if p >= s.len() || s[p] == 0x5c {
        None
    } else if s[p] == 0x22 {
        Some(p)
    } else {
        closing_quote(s, p + 1)
    }
}

/// A quoted string: what stands between the quotes, and the position behind it.
pub open spec fn text(s: Seq<u8>, p: int) -> Option<(Seq<u8>, int)> {
    match after_byte(s, p, 0x22) {
        Some(start) => match closing_quote(s, start) {
            Some(end) => Some((s.subrange(start, end), end + 1)),
            None => None,
        },
        None => None,
    }
}

/// The first position from `p` on that is not a digit.
pub open spec fn after_digits(s: Seq<u8>, p: int) -> int
    decreases s.len() - p,
{
    if 0 <= p < s.len() && is_digit(s[p]) {
        after_digits(s, p + 1)
    } else {
        p
    }
}

/// The position behind a minus sign, if there is one.
pub open spec fn after_minus(s: Seq<u8>, p: int) -> int {
    if holds(s, p, 0x2d) {
        p + 1
    } else {
        p
    }
}

/// The position behind a sign of either kind, if there is one.
pub open spec fn after_sign(s: Seq<u8>, p: int) -> int {
    if holds(s, p, 0x2b) || holds(s, p, 0x2d) {
        p + 1
    } else {
        p
    }
}

/// The position behind a decimal point and its digits, if there is a point.
pub open spec fn after_fraction(s: Seq<u8>, p: int) -> int {
    if holds(s, p, 0x2e) {
        after_digits(s, p + 1)
    } else {
        p
    }
}

/// Whether an exponent begins at `p`.
pub open spec fn exponent_mark(s: Seq<u8>, p: int) -> bool {
    holds(s, p, 0x65) || holds(s, p, 0x45)
}

/// A decimal numeral that begins at `p`: an optional minus sign, digits with an
/// optional decimal point and at least one digit on either side of it, and an
/// optional exponent with at least one digit. The position behind it.
pub open spec fn numeral_end(s: Seq<u8>, p: int) -> Option<int> {
    let whole = after_minus(s, p);
    let point = after_digits(s, whole);
    let mantissa = after_fraction(s, point);
    let digits = point > whole || mantissa > point + 1;
    if !digits {
        None
    } else if exponent_mark(s, mantissa) {
        let sign = after_sign(s, mantissa + 1);
        let end = after_digits(s, sign);
        if end > sign {
            Some(end)
        } else {
            None
        }
    } else {
        Some(mantissa)
    }
}

/// The position behind the sign, the digits, the point and the exponent that stand at `p`,
/// whether or not they make a numeral: each of them may be missing.
pub open spec fn after_numeric(s: Seq<u8>, p: int) -> int {
    let mantissa = after_fraction(s, after_digits(s, after_minus(s, p)));
    if exponent_mark(s, mantissa) {
        after_digits(s, after_sign(s, mantissa + 1))
    } else {
        mantissa
    }
}

/// A numeral, which whitespace may precede: its bytes and the position behind it.
pub open spec fn numeral(s: Seq<u8>, p: int) -> Option<(Seq<u8>, int)> {
    let q = after_space(s, p);
    match numeral_end(s, q) {
        Some(end) => Some((s.subrange(q, end), end)),
        None => None,
    }
}

/// Whether `t` is, from end to end, a decimal numeral.
pub open spec fn is_numeral(t: Seq<u8>) -> bool {
    numeral_end(t, 0) == Some(t.len() as int)
}

/// `true` or `false`, which whitespace may precede.
pub open spec fn truth(s: Seq<u8>, p: int) -> Option<(bool, int)> {
    let q = after_space(s, p);
    if stands_at(s, q, "true".spec_bytes()) {
        Some((true, q + "true".spec_bytes().len()))
    } else if stands_at(s, q, "false".spec_bytes()) {
        Some((false, q + "false".spec_bytes().len()))
    } else {
        None
    }
}

/// The position behind the word `word` at `p`.
pub open spec fn after_word(s: Seq<u8>, p: int, word: Seq<u8>) -> Option<int> {
    if stands_at(s, p, word) {
        Some(p + word.len())
    } else {
        None
    }
}

/// `q`, as long as it lies behind `p`.
pub open spec fn forward(p: int, q: Option<int>) -> Option<int> {
    match q {
        Some(x) => if x > p {
            Some(x)
        } else {
            None
        },
        None => None,
    }
}

/// The position behind a value of any kind.
pub open spec fn after_value(s: Seq<u8>, p: int) -> Option<int>
    decreases s.len() - p, 0int,
{
    proof {
        lemma_after_space(s, p);
    }
    let q = after_space(s, p);
    if q >= s.len() {
        None
    } else if s[q] == 0x22 {
        match text(s, q) {
            Some((_, end)) => Some(end),
            None => None,
        }
    } else if s[q] == 0x7b {
        after_members(s, q + 1)
    } else if s[q] == 0x5b {
        after_elements(s, q + 1)
    } else if s[q] == 0x74 {
        after_word(s, q, "true".spec_bytes())
    } else if s[q] == 0x66 {
        after_word(s, q, "false".spec_bytes())
    } else if s[q] == 0x6e {
        after_word(s, q, "null".spec_bytes())
    } else {
        match numeral(s, q) {
            Some((_, end)) => Some(end),
            None => None,
        }
    }
}

/// The position behind the rest of an object whose opening brace, or a comma of
/// which, stands before `p`. A comma may stand before the closing brace.
pub open spec fn after_members(s: Seq<u8>, p: int) -> Option<int>
    decreases s.len() - p, 1int,
{
    proof {
        lemma_key(s, p);
    }
    let q = after_space(s, p);
    if holds(s, q, 0x7d) {
        Some(q + 1)
    } else {
        match key(s, q) {
            Some((_, v)) => match forward(v, after_value(s, v)) {
                Some(w) => {
                    proof {
                        lemma_after_space(s, w);
                    }
                    match after_byte(s, w, 0x2c) {
                        Some(x) => after_members(s, x),
                        None => after_byte(s, w, 0x7d),
                    }
                },
                None => None,
            },
            None => None,
        }
    }
}

/// The position behind the rest of an array whose opening bracket, or a comma of
/// which, stands before `p`. A comma may stand before the closing bracket.
pub open spec fn after_elements(s: Seq<u8>, p: int) -> Option<int>
    decreases s.len() - p, 1int,
{
    proof {
        lemma_after_space(s, p);
    }
    let q = after_space(s, p);
    if holds(s, q, 0x5d) {
        Some(q + 1)
    } else {
        match forward(q, after_value(s, q)) {
            Some(w) => {
                proof {
                    lemma_after_space(s, w);
                }
                match after_byte(s, w, 0x2c) {
                    Some(x) => after_elements(s, x),
                    None => after_byte(s, w, 0x5d),
                }
            },
            None => None,
        }
    }
}

/// A member's name and the colon behind it.
pub open spec fn key(s: Seq<u8>, p: int) -> Option<(Seq<u8>, int)> {
    match text(s, p) {
        Some((name, q)) => match after_byte(s, q, 0x3a) {
            Some(v) => Some((name, v)),
            None => None,
        },
        None => None,
    }
}

pub proof fn lemma_after_space(s: Seq<u8>, p: int)
    ensures
        after_space(s, p) >= p,
        0 <= p <= s.len() ==> after_space(s, p) <= s.len(),
        !(0 <= after_space(s, p) < s.len() && is_space(s[after_space(s, p)])),
    decreases s.len() - p,
{
    if 0 <= p < s.len() && is_space(s[p]) {
        lemma_after_space(s, p + 1);
    }
}

pub proof fn lemma_after_digits(s: Seq<u8>, p: int)
    ensures
        after_digits(s, p) >= p,
        0 <= p <= s.len() ==> after_digits(s, p) <= s.len(),
    decreases s.len() - p,
{
    if 0 <= p < s.len() && is_digit(s[p]) {
        lemma_after_digits(s, p + 1);
    }
}

pub proof fn lemma_closing_quote(s: Seq<u8>, p: int)
    ensures
        closing_quote(s, p) matches Some(e) ==> {
            &&& p <= e < s.len()
            &&& s[e] == 0x22
            &&& forall|i: int| p <= i < e ==> s[i] != 0x22 && s[i] != 0x5c
        },
    decreases s.len() - p,
{
    if p < s.len() && s[p] != 0x5c && s[p] != 0x22 {
        lemma_closing_quote(s, p + 1);
    }
}

pub proof fn lemma_key(s: Seq<u8>, p: int)
    ensures
        after_space(s, p) >= p,
        key(s, after_space(s, p)) matches Some((_, v)) ==> p + 3 <= v,
{
    lemma_after_space(s, p);
    let q = after_space(s, p);
    lemma_after_space(s, q);
    if let Some(start) = after_byte(s, q, 0x22) {
        lemma_closing_quote(s, start);
        if let Some((_, r)) = text(s, q) {
            lemma_after_space(s, r);
        }
    }
}


// ---------------------------------------------------------------------------
// The transaction.
// ---------------------------------------------------------------------------

/// What a payload says of a transaction. Amounts, counts and distances are
/// decimal numerals, byte for byte as they stand in the payload.
#[verifier::ext_equal]
pub struct Transaction {
    pub amount: Seq<u8>,
    pub installments: Seq<u8>,
    pub requested_at: Seq<u8>,
    pub customer_avg_amount: Seq<u8>,
    pub tx_count_24h: Seq<u8>,
    pub known_merchants: Seq<Seq<u8>>,
    pub merchant_id: Seq<u8>,
    pub merchant_mcc: usize,
    pub merchant_avg_amount: Seq<u8>,
    pub is_online: bool,
    pub card_present: bool,
    pub km_from_home: Seq<u8>,
    pub last_timestamp: Option<Seq<u8>>,
    pub last_km_from_current: Seq<u8>,
}

/// The transaction before anything was read: zeros, empty strings, no merchants.
pub open spec fn blank() -> Transaction {
    Transaction {
        amount: "0".spec_bytes(),
        installments: "0".spec_bytes(),
        requested_at: Seq::empty(),
        customer_avg_amount: "0".spec_bytes(),
        tx_count_24h: "0".spec_bytes(),
        known_merchants: Seq::empty(),
        merchant_id: Seq::empty(),
        merchant_mcc: usize::MAX,
        merchant_avg_amount: "0".spec_bytes(),
        is_online: false,
        card_present: false,
        km_from_home: "0".spec_bytes(),
        last_timestamp: None,
        last_km_from_current: "0".spec_bytes(),
    }
}

/// The objects of a payload whose members are read.
#[derive(Clone, Copy, PartialEq, Eq, Structural)]
pub enum Section {
    Transaction,
    Customer,
    Merchant,
    Terminal,
    LastTransaction,
}

/// `into` with the fields of `section` as `from` has them.
pub open spec fn with_section(section: Section, from: Transaction, into: Transaction) -> Transaction {
    match section {
        Section::Transaction => Transaction {
            amount: from.amount,
            installments: from.installments,
            requested_at: from.requested_at,
            ..into
        },
        Section::Customer => Transaction {
            customer_avg_amount: from.customer_avg_amount,
            tx_count_24h: from.tx_count_24h,
            known_merchants: from.known_merchants,
            ..into
        },
        Section::Merchant => Transaction {
            merchant_id: from.merchant_id,
            merchant_mcc: from.merchant_mcc,
            merchant_avg_amount: from.merchant_avg_amount,
            ..into
        },
        Section::Terminal => Transaction {
            is_online: from.is_online,
            card_present: from.card_present,
            km_from_home: from.km_from_home,
            ..into
        },
        Section::LastTransaction => Transaction {
            last_timestamp: from.last_timestamp,
            last_km_from_current: from.last_km_from_current,
            ..into
        },
    }
}

/// The number that a run of digits writes.
pub open spec fn decimal(digits: Seq<u8>) -> int
    decreases digits.len(),
{
    if digits.len() == 0 {
        0
    } else {
        decimal(digits.drop_last()) * 10 + (digits.last() - 0x30)
    }
}

/// Whether every byte is a digit.
pub open spec fn all_digits(bytes: Seq<u8>) -> bool {
    forall|i: int| 0 <= i < bytes.len() ==> is_digit(#[trigger] bytes[i])
}

/// The merchant category that `bytes` writes; `usize::MAX`, which is none, where
/// a byte is no digit or the number does not fit.
pub open spec fn category(bytes: Seq<u8>) -> usize {
    if all_digits(bytes) && decimal(bytes) <= usize::MAX {
        decimal(bytes) as usize
    } else {
        usize::MAX
    }
}

/// The list of known merchants from `p` on, behind the opening bracket or a comma,
/// added to the merchants that are already known.
pub open spec fn merchant_list(s: Seq<u8>, p: int, known: Seq<Seq<u8>>) -> Option<(
    Seq<Seq<u8>>,
    int,
)>
    decreases s.len() - p,
{
    proof {
        lemma_after_space(s, p);
        lemma_text(s, after_space(s, p));
    }
    let q = after_space(s, p);
    if holds(s, q, 0x5d) {
        Some((known, q + 1))
    } else {
        match text(s, q) {
            Some((merchant, w)) => {
                let grown = if known.len() < MAX_KNOWN_MERCHANTS {
                    known.push(merchant)
                } else {
                    known
                };
                proof {
                    lemma_after_space(s, w);
                }
                match after_byte(s, w, 0x2c) {
                    Some(x) => merchant_list(s, x, grown),
                    None => match after_byte(s, w, 0x5d) {
                        Some(x) => Some((grown, x)),
                        None => None,
                    },
                }
            },
            None => None,
        }
    }
}

/// The member `name` of `section`, whose value begins at `p`, read into `t`. A member
/// of another name is passed over.
pub open spec fn member(
    section: Section,
    name: Seq<u8>,
    s: Seq<u8>,
    p: int,
    t: Transaction,
) -> Option<(Transaction, int)> {
    match section {
        Section::Transaction => if name == "amount".spec_bytes() {
            match numeral(s, p) {
                Some((n, q)) => Some((Transaction { amount: n, ..t }, q)),
                None => None,
            }
        } else if name == "installments".spec_bytes() {
            match numeral(s, p) {
                Some((n, q)) => Some((Transaction { installments: n, ..t }, q)),
                None => None,
            }
        } else if name == "requested_at".spec_bytes() {
            match text(s, p) {
                Some((x, q)) => Some((Transaction { requested_at: x, ..t }, q)),
                None => None,
            }
        } else {
            passed_over(s, p, t)
        },
        Section::Customer => if name == "avg_amount".spec_bytes() {
            match numeral(s, p) {
                Some((n, q)) => Some((Transaction { customer_avg_amount: n, ..t }, q)),
                None => None,
            }
        } else if name == "tx_count_24h".spec_bytes() {
            match numeral(s, p) {
                Some((n, q)) => Some((Transaction { tx_count_24h: n, ..t }, q)),
                None => None,
            }
        } else if name == "known_merchants".spec_bytes() {
            match after_byte(s, p, 0x5b) {
                Some(q) => match merchant_list(s, q, t.known_merchants) {
                    Some((known, e)) => Some((Transaction { known_merchants: known, ..t }, e)),
                    None => None,
                },
                None => None,
            }
        } else {
            passed_over(s, p, t)
        },
        Section::Merchant => if name == "id".spec_bytes() {
            match text(s, p) {
                Some((x, q)) => Some((Transaction { merchant_id: x, ..t }, q)),
                None => None,
            }
        } else if name == "mcc".spec_bytes() {
            match text(s, p) {
                Some((x, q)) => Some((Transaction { merchant_mcc: category(x), ..t }, q)),
                None => None,
            }
        } else if name == "avg_amount".spec_bytes() {
            match numeral(s, p) {
                Some((n, q)) => Some((Transaction { merchant_avg_amount: n, ..t }, q)),
                None => None,
            }
        } else {
            passed_over(s, p, t)
        },
        Section::Terminal => if name == "is_online".spec_bytes() {
            match truth(s, p) {
                Some((b, q)) => Some((Transaction { is_online: b, ..t }, q)),
                None => None,
            }
        } else if name == "card_present".spec_bytes() {
            match truth(s, p) {
                Some((b, q)) => Some((Transaction { card_present: b, ..t }, q)),
                None => None,
            }
        } else if name == "km_from_home".spec_bytes() {
            match numeral(s, p) {
                Some((n, q)) => Some((Transaction { km_from_home: n, ..t }, q)),
                None => None,
            }
        } else {
            passed_over(s, p, t)
        },
        Section::LastTransaction => if name == "timestamp".spec_bytes() {
            match text(s, p) {
                Some((x, q)) => Some((Transaction { last_timestamp: Some(x), ..t }, q)),
                None => None,
            }
        } else if name == "km_from_current".spec_bytes() {
            match numeral(s, p) {
                Some((n, q)) => Some((Transaction { last_km_from_current: n, ..t }, q)),
                None => None,
            }
        } else {
            passed_over(s, p, t)
        },
    }
}

/// A value that leaves the transaction as it is.
pub open spec fn passed_over(s: Seq<u8>, p: int, t: Transaction) -> Option<(Transaction, int)> {
    match after_value(s, p) {
        Some(q) => Some((t, q)),
        None => None,
    }
}

/// The members of `section` from `p` on, behind the opening brace or a comma.
pub open spec fn members(section: Section, s: Seq<u8>, p: int, t: Transaction) -> Option<(
    Transaction,
    int,
)>
    decreases s.len() - p,
{
    proof {
        lemma_key(s, p);
    }
    let q = after_space(s, p);
    if holds(s, q, 0x7d) {
        Some((t, q + 1))
    } else {
        match key(s, q) {
            Some((name, v)) => match member(section, name, s, v, t) {
                Some((u, w)) => {
                    proof {
                        lemma_member_forward(section, name, s, v, t);
                        lemma_after_space(s, w);
                    }
                    match after_byte(s, w, 0x2c) {
                        Some(x) => members(section, s, x, u),
                        None => match after_byte(s, w, 0x7d) {
                            Some(x) => Some((u, x)),
                            None => None,
                        },
                    }
                },
                None => None,
            },
            None => None,
        }
    }
}

/// The object `section`, which whitespace may precede.
pub open spec fn object(section: Section, s: Seq<u8>, p: int, t: Transaction) -> Option<(
    Transaction,
    int,
)> {
    match after_byte(s, p, 0x7b) {
        Some(q) => members(section, s, q, t),
        None => None,
    }
}

/// The value of `last_transaction`: an object, or `null`, which takes back what an
/// earlier one said.
pub open spec fn last_transaction(s: Seq<u8>, p: int, t: Transaction) -> Option<(
    Transaction,
    int,
)> {
    let q = after_space(s, p);
    if stands_at(s, q, "null".spec_bytes()) {
        Some(
            (
                Transaction {
                    last_timestamp: None,
                    last_km_from_current: "0".spec_bytes(),
                    ..t
                },
                q + "null".spec_bytes().len(),
            ),
        )
    } else {
        object(Section::LastTransaction, s, q, t)
    }
}

/// The member `name` of the payload itself.
pub open spec fn root_member(name: Seq<u8>, s: Seq<u8>, p: int, t: Transaction) -> Option<(
    Transaction,
    int,
)> {
    if name == "transaction".spec_bytes() {
        object(Section::Transaction, s, p, t)
    } else if name == "customer".spec_bytes() {
        object(Section::Customer, s, p, t)
    } else if name == "merchant".spec_bytes() {
        object(Section::Merchant, s, p, t)
    } else if name == "terminal".spec_bytes() {
        object(Section::Terminal, s, p, t)
    } else if name == "last_transaction".spec_bytes() {
        last_transaction(s, p, t)
    } else {
        passed_over(s, p, t)
    }
}

/// The members of the payload from `p` on, behind the opening brace or a comma.
pub open spec fn root_members(s: Seq<u8>, p: int, t: Transaction) -> Option<(Transaction, int)>
    decreases s.len() - p,
{
    proof {
        lemma_key(s, p);
    }
    let q = after_space(s, p);
    if holds(s, q, 0x7d) {
        Some((t, q + 1))
    } else {
        match key(s, q) {
            Some((name, v)) => match root_member(name, s, v, t) {
                Some((u, w)) => {
                    proof {
                        lemma_root_member_forward(name, s, v, t);
                        lemma_after_space(s, w);
                    }
                    match after_byte(s, w, 0x2c) {
                        Some(x) => root_members(s, x, u),
                        None => match after_byte(s, w, 0x7d) {
                            Some(x) => Some((u, x)),
                            None => None,
                        },
                    }
                },
                None => None,
            },
            None => None,
        }
    }
}

/// The payload, and the position behind it.
pub open spec fn root(s: Seq<u8>, p: int, t: Transaction) -> Option<(Transaction, int)> {
    match after_byte(s, p, 0x7b) {
        Some(q) => root_members(s, q, t),
        None => None,
    }
}

/// The transaction that an input describes: that of the object it begins with, as
/// long as it names a time and a merchant. What follows the object does not matter.
pub open spec fn transaction_of(s: Seq<u8>) -> Option<Transaction> {
    match root(s, 0, blank()) {
        Some((t, _)) => if t.requested_at.len() == 0 || t.merchant_id.len() == 0 {
            None
        } else {
            Some(t)
        },
        None => None,
    }
}

// ---------------------------------------------------------------------------
// Positions only grow.
// ---------------------------------------------------------------------------

pub proof fn lemma_text(s: Seq<u8>, p: int)
    ensures
        text(s, p) matches Some((x, q)) ==> {
            &&& p + 2 <= q <= s.len()
            &&& forall|i: int| 0 <= i < x.len() ==> x[i] != 0x22 && x[i] != 0x5c
        },
{
    lemma_after_space(s, p);
    if let Some(start) = after_byte(s, p, 0x22) {
        lemma_closing_quote(s, start);
    }
}

pub proof fn lemma_numeral(s: Seq<u8>, p: int)
    ensures
        p <= after_space(s, p),
        numeral(s, p) matches Some((_, q)) ==> p < q,
        numeral(s, p) matches Some((_, q)) ==> 0 <= p ==> q <= s.len(),
{
    lemma_after_space(s, p);
    let q = after_space(s, p);
    let whole = after_minus(s, q);
    lemma_after_digits(s, whole);
    let point = after_digits(s, whole);
    lemma_after_digits(s, point + 1);
    let mantissa = after_fraction(s, point);
    lemma_after_digits(s, after_sign(s, mantissa + 1));
}

pub proof fn lemma_truth(s: Seq<u8>, p: int)
    ensures
        truth(s, p) matches Some((_, q)) ==> p < q <= s.len(),
{
    lemma_after_space(s, p);
    lemma_words();
}

/// How long the words are that the grammar knows.
pub proof fn lemma_words()
    ensures
        "true".spec_bytes().len() == 4,
        "false".spec_bytes().len() == 5,
        "null".spec_bytes().len() == 4,
{
    reveal_strlit("true");
    reveal_strlit("false");
    reveal_strlit("null");
    vstd::utf8::is_ascii_chars_encode_utf8("true"@);
    vstd::utf8::is_ascii_chars_encode_utf8("false"@);
    vstd::utf8::is_ascii_chars_encode_utf8("null"@);
}

pub proof fn lemma_value_forward(s: Seq<u8>, p: int)
    ensures
        after_value(s, p) matches Some(q) ==> p < q,
        after_value(s, p) matches Some(q) ==> 0 <= p ==> q <= s.len(),
    decreases s.len() - p, 0int,
{
    lemma_after_space(s, p);
    let q = after_space(s, p);
    lemma_words();
    if q < s.len() {
        lemma_text(s, q);
        lemma_numeral(s, q);
        if s[q] == 0x7b {
            lemma_members_forward(s, q + 1);
        } else if s[q] == 0x5b {
            lemma_elements_forward(s, q + 1);
        }
    }
}

pub proof fn lemma_members_forward(s: Seq<u8>, p: int)
    ensures
        after_members(s, p) matches Some(q) ==> p < q,
        after_members(s, p) matches Some(q) ==> 0 <= p ==> q <= s.len(),
    decreases s.len() - p, 1int,
{
    lemma_key(s, p);
    let q = after_space(s, p);
    if !holds(s, q, 0x7d) {
        if let Some((_, v)) = key(s, q) {
            if let Some(w) = forward(v, after_value(s, v)) {
                lemma_after_space(s, w);
                if let Some(x) = after_byte(s, w, 0x2c) {
                    lemma_members_forward(s, x);
                }
            }
        }
    }
}

pub proof fn lemma_elements_forward(s: Seq<u8>, p: int)
    ensures
        after_elements(s, p) matches Some(q) ==> p < q,
        after_elements(s, p) matches Some(q) ==> 0 <= p ==> q <= s.len(),
    decreases s.len() - p, 1int,
{
    lemma_after_space(s, p);
    let q = after_space(s, p);
    if !holds(s, q, 0x5d) {
        if let Some(w) = forward(q, after_value(s, q)) {
            lemma_after_space(s, w);
            if let Some(x) = after_byte(s, w, 0x2c) {
                lemma_elements_forward(s, x);
            }
        }
    }
}

pub proof fn lemma_merchant_list_forward(s: Seq<u8>, p: int, known: Seq<Seq<u8>>)
    ensures
        merchant_list(s, p, known) matches Some((_, q)) ==> p < q,
        merchant_list(s, p, known) matches Some((_, q)) ==> 0 <= p ==> q <= s.len(),
    decreases s.len() - p,
{
    lemma_after_space(s, p);
    let q = after_space(s, p);
    if !holds(s, q, 0x5d) {
        lemma_text(s, q);
        if let Some((merchant, w)) = text(s, q) {
            lemma_after_space(s, w);
            let grown = if known.len() < MAX_KNOWN_MERCHANTS {
                known.push(merchant)
            } else {
                known
            };
            if let Some(x) = after_byte(s, w, 0x2c) {
                lemma_merchant_list_forward(s, x, grown);
            }
        }
    }
}

pub proof fn lemma_member_forward(
    section: Section,
    name: Seq<u8>,
    s: Seq<u8>,
    p: int,
    t: Transaction,
)
    ensures
        member(section, name, s, p, t) matches Some((_, q)) ==> p < q,
        member(section, name, s, p, t) matches Some((_, q)) ==> 0 <= p ==> q <= s.len(),
{
    lemma_numeral(s, p);
    lemma_text(s, p);
    lemma_truth(s, p);
    lemma_value_forward(s, p);
    lemma_after_space(s, p);
    if let Some(q) = after_byte(s, p, 0x5b) {
        lemma_merchant_list_forward(s, q, t.known_merchants);
    }
}

pub proof fn lemma_object_forward(section: Section, s: Seq<u8>, p: int, t: Transaction)
    ensures
        members(section, s, p, t) matches Some((_, q)) ==> p < q,
        members(section, s, p, t) matches Some((_, q)) ==> 0 <= p ==> q <= s.len(),
    decreases s.len() - p,
{
    lemma_key(s, p);
    let q = after_space(s, p);
    if !holds(s, q, 0x7d) {
        if let Some((name, v)) = key(s, q) {
            lemma_member_forward(section, name, s, v, t);
            if let Some((u, w)) = member(section, name, s, v, t) {
                lemma_after_space(s, w);
                if let Some(x) = after_byte(s, w, 0x2c) {
                    lemma_object_forward(section, s, x, u);
                }
            }
        }
    }
}

pub proof fn lemma_root_member_forward(name: Seq<u8>, s: Seq<u8>, p: int, t: Transaction)
    ensures
        root_member(name, s, p, t) matches Some((_, q)) ==> p < q,
        root_member(name, s, p, t) matches Some((_, q)) ==> 0 <= p ==> q <= s.len(),
{
    lemma_after_space(s, p);
    lemma_after_space(s, after_space(s, p));
    lemma_words();
    lemma_value_forward(s, p);
    if let Some(q) = after_byte(s, p, 0x7b) {
        lemma_object_forward(Section::Transaction, s, q, t);
        lemma_object_forward(Section::Customer, s, q, t);
        lemma_object_forward(Section::Merchant, s, q, t);
        lemma_object_forward(Section::Terminal, s, q, t);
        lemma_object_forward(Section::LastTransaction, s, q, t);
    }
}

/// Digits are read from the left: each that is added counts for itself and moves those
/// before it up by one place.
pub proof fn law_digits_by_their_places(digits: Seq<u8>, next: u8)
    ensures
        decimal(Seq::empty()) == 0,
        decimal(digits.push(next)) == 10 * decimal(digits) + (next - 0x30),
{
    assert(digits.push(next).drop_last() =~= digits);
}

/// A run of digits whose number fits is the category of that number; anything else is none.
pub proof fn law_categories_are_their_numbers(bytes: Seq<u8>)
    ensures
        (forall|i: int| 0 <= i < bytes.len() ==> 0x30 <= #[trigger] bytes[i] <= 0x39) && decimal(
            bytes,
        ) <= usize::MAX ==> category(bytes) == decimal(bytes),
        (exists|i: int|
            0 <= i < bytes.len() && !(0x30 <= #[trigger] bytes[i] <= 0x39)) || decimal(bytes)
            > usize::MAX ==> category(bytes) == usize::MAX,
{
    if forall|i: int| 0 <= i < bytes.len() ==> 0x30 <= #[trigger] bytes[i] <= 0x39 {
        assert(all_digits(bytes));
        lemma_decimal_sign(bytes);
    }
    if exists|i: int| 0 <= i < bytes.len() && !(0x30 <= #[trigger] bytes[i] <= 0x39) {
        let i = choose|i: int| 0 <= i < bytes.len() && !(0x30 <= #[trigger] bytes[i] <= 0x39);
        assert(!is_digit(bytes[i]));
    }
}

pub proof fn lemma_decimal_sign(digits: Seq<u8>)
    requires
        forall|i: int| 0 <= i < digits.len() ==> 0x30 <= #[trigger] digits[i] <= 0x39,
    ensures
        decimal(digits) >= 0,
    decreases digits.len(),
{
    if digits.len() > 0 {
        let fewer = digits.drop_last();
        assert forall|i: int| 0 <= i < fewer.len() implies 0x30 <= #[trigger] fewer[i] <= 0x39 by {
            assert(fewer[i] == digits[i]);
        }
        lemma_decimal_sign(fewer);
        assert(digits.last() == digits[digits.len() - 1]);
    }
}

/// Whitespace is blanks, tabs, line feeds and carriage returns: what is passed over holds
/// nothing else, and what comes then is none of these.
pub proof fn law_whitespace(s: Seq<u8>, p: int)
    requires
        0 <= p <= s.len(),
    ensures
        p <= after_space(s, p) <= s.len(),
        forall|i: int|
            p <= i < after_space(s, p) ==> #[trigger] s[i] == 0x20 || s[i] == 0x09 || s[i] == 0x0a
                || s[i] == 0x0d,
        after_space(s, p) < s.len() ==> {
            let b = s[after_space(s, p)];
            b != 0x20 && b != 0x09 && b != 0x0a && b != 0x0d
        },
    decreases s.len() - p,
{
    if p < s.len() && is_space(s[p]) {
        law_whitespace(s, p + 1);
    }
}

} // verus!
