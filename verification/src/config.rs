//! Settings: numbers in text, and the table of risks by merchant category.
use vstd::prelude::*;
use vstd::slice::slice_subrange;

verus! {

use crate::bytes::is_digit;
use crate::grammar::{all_digits, decimal};

/// How many clusters are probed unless something else is set.
pub const DEFAULT_PROBES: usize = 192;

/// How many merchant categories have a risk of their own.
pub const CATEGORIES: usize = 10_000;

/// The bits of the single precision number 0.5, the risk of a category of which nothing is
/// known.
pub const UNKNOWN_RISK: u32 = 0x3f00_0000;

/// The digits of a number in text, behind a plus sign where there is one.
pub open spec fn unsigned(text: Seq<u8>) -> Seq<u8> {
    if text.len() > 0 && text[0] == 0x2b {
        text.skip(1)
    } else {
        text
    }
}

/// The number that a text writes: digits, behind a plus sign where there is one, that make
/// a number that fits.
pub open spec fn number_of(text: Seq<u8>) -> Option<usize> {
    let digits = unsigned(text);
    if digits.len() > 0 && all_digits(digits) && decimal(digits) <= usize::MAX {
        Some(decimal(digits) as usize)
    } else {
        None
    }
}

/// The number that a text writes.
pub fn parse_number(text: &[u8]) -> (r: Option<usize>)
    ensures
        r == number_of(text@),
{
    let digits = if text.len() > 0 && text[0] == 0x2b {
        let rest = slice_subrange(text, 1, text.len());
        assert(rest@ =~= text@.skip(1));
        rest
    } else {
        text
    };
    assert(digits@ == unsigned(text@));
    if digits.len() == 0 {
        return None;
    }
    let mut value: usize = 0;
    let mut fits: bool = true;
    let mut i: usize = 0;
    assert(digits@.take(0) =~= Seq::empty());
    while i < digits.len()
        invariant
            i <= digits.len(),
            digits@ == unsigned(text@),
            all_digits(digits@.take(i as int)),
            fits ==> value == decimal(digits@.take(i as int)),
            !fits ==> decimal(digits@.take(i as int)) > usize::MAX,
        decreases digits.len() - i,
    {
        let b = digits[i];
        if b < 0x30 || b > 0x39 {
            assert(!is_digit(digits@[i as int]));
            return None;
        }
        let digit = (b - 0x30) as usize;
        proof {
            assert(digits@.take(i + 1).drop_last() =~= digits@.take(i as int));
            assert(decimal(digits@.take(i + 1)) == decimal(digits@.take(i as int)) * 10 + digit);
            assert forall|j: int| 0 <= j < i + 1 implies is_digit(
                #[trigger] digits@.take(i + 1)[j],
            ) by {
                assert(j < i ==> is_digit(digits@.take(i as int)[j]));
            }
        }
        if fits && value <= (usize::MAX - digit) / 10 {
            value = value * 10 + digit;
        } else {
            fits = false;
        }
        i += 1;
    }
    assert(digits@.take(i as int) =~= digits@);
    if fits {
        Some(value)
    } else {
        None
    }
}

/// The number of clusters to probe: the number that is set, where there is one.
pub fn probes_setting(text: Option<&[u8]>) -> (r: usize)
    ensures
        r == match text {
            Some(t) => match number_of(t@) {
                Some(n) => n,
                None => DEFAULT_PROBES,
            },
            None => DEFAULT_PROBES,
        },
        text is None || number_of(text->Some_0@) is None ==> r == 192,
{
    match text {
        Some(t) => match parse_number(t) {
            Some(n) => n,
            None => DEFAULT_PROBES,
        },
        None => DEFAULT_PROBES,
    }
}

/// A category and its risk, as the bits of a single precision number.
pub struct RiskEntry {
    pub category: Vec<u8>,
    pub risk: u32,
}

/// The risk of category `c`: that of the last of the first `n` entries that names it.
pub open spec fn risk_of(entries: Seq<RiskEntry>, c: int, n: nat) -> u32
    decreases n,
{
    if n == 0 {
        UNKNOWN_RISK
    } else if number_of(entries[n - 1].category@) matches Some(x) && x == c {
        entries[n - 1].risk
    } else {
        risk_of(entries, c, (n - 1) as nat)
    }
}

/// The table of risks by category. Entries whose category is no number or too large are
/// passed over.
pub fn mcc_table(entries: &Vec<RiskEntry>) -> (r: Vec<u32>)
    ensures
        r.len() == CATEGORIES,
        r.len() == 10_000,
        forall|c: int|
            0 <= c < CATEGORIES ==> #[trigger] r@[c] == risk_of(entries@, c, entries@.len()),
{
    let mut table: Vec<u32> = Vec::new();
    while table.len() < CATEGORIES
        invariant
            table.len() <= CATEGORIES,
            forall|c: int| 0 <= c < table.len() ==> #[trigger] table@[c] == UNKNOWN_RISK,
        decreases CATEGORIES - table.len(),
    {
        table.push(UNKNOWN_RISK);
    }
    let mut i: usize = 0;
    while i < entries.len()
        invariant
            i <= entries.len(),
            table.len() == CATEGORIES,
            forall|c: int|
                0 <= c < CATEGORIES ==> #[trigger] table@[c] == risk_of(entries@, c, i as nat),
        decreases entries.len() - i,
    {
        if let Some(c) = parse_number(entries[i].category.as_slice()) {
            if c < CATEGORIES {
                table.set(c, entries[i].risk);
            }
        }
        i += 1;
    }
    table
}

/// The risk of a category; one that the table does not have counts as unknown.
pub fn risk_in(table: &[u32], category: usize) -> (r: u32)
    ensures
        r == if category < table@.len() {
            table@[category as int]
        } else {
            UNKNOWN_RISK
        },
        category >= table@.len() ==> r == 0x3f00_0000,
{
    if category < table.len() {
        table[category]
    } else {
        UNKNOWN_RISK
    }
}

/// Digits that make a number that fits are read as that number, with or without a plus sign
/// before them. Nothing else is a number: no text without digits, none with another byte
/// among them, and no number that does not fit.
pub proof fn law_numbers_are_read(digits: Seq<u8>)
    requires
        forall|i: int| 0 <= i < digits.len() ==> 0x30 <= #[trigger] digits[i] <= 0x39,
    ensures
        ({
            let signed = seq![0x2bu8] + digits;
            if digits.len() > 0 && decimal(digits) <= usize::MAX {
                &&& number_of(digits) matches Some(n) && n == decimal(digits)
                &&& number_of(signed) matches Some(n) && n == decimal(digits)
            } else {
                number_of(digits) is None && number_of(signed) is None
            }
        }),
{
    let signed = seq![0x2bu8] + digits;
    assert(signed.skip(1) =~= digits);
    if digits.len() > 0 {
        assert(0x30 <= digits[0] <= 0x39);
    }
    assert(all_digits(digits));
    crate::grammar::lemma_decimal_sign(digits);
}

/// A text with a byte that is no digit is no number, but for a plus sign at its beginning.
pub proof fn law_other_texts_are_no_numbers(text: Seq<u8>, i: int)
    requires
        0 <= i < text.len(),
        !(0x30 <= text[i] <= 0x39),
        i == 0 ==> text[0] != 0x2b,
    ensures
        number_of(text) is None,
{
    let digits = unsigned(text);
    if text[0] == 0x2b {
        assert(digits[i - 1] == text[i]);
        assert(!is_digit(digits[i - 1]));
    } else {
        assert(!is_digit(digits[i]));
    }
}

/// Of several entries that name a category the last one counts, whatever the others say.
pub proof fn law_last_entry_counts(entries: Seq<RiskEntry>, c: usize, i: int)
    requires
        0 <= i < entries.len(),
        number_of(entries[i].category@) == Some(c),
        forall|j: int|
            i < j < entries.len() ==> number_of((#[trigger] entries[j]).category@) != Some(c),
    ensures
        risk_of(entries, c as int, entries.len()) == entries[i].risk,
{
    lemma_last_entry(entries, c, i, entries.len());
}

proof fn lemma_last_entry(entries: Seq<RiskEntry>, c: usize, i: int, n: nat)
    requires
        0 <= i < n <= entries.len(),
        number_of(entries[i].category@) == Some(c),
        forall|j: int|
            i < j < entries.len() ==> number_of((#[trigger] entries[j]).category@) != Some(c),
    ensures
        risk_of(entries, c as int, n) == entries[i].risk,
    decreases n,
{
    if i < n - 1 {
        assert(number_of(entries[n - 1].category@) != Some(c));
        lemma_last_entry(entries, c, i, (n - 1) as nat);
    }
}

/// A category that no entry names has the risk one half.
pub proof fn law_unnamed_categories(entries: Seq<RiskEntry>, c: usize, n: nat)
    requires
        n <= entries.len(),
        forall|j: int|
            0 <= j < entries.len() ==> number_of((#[trigger] entries[j]).category@) != Some(c),
    ensures
        risk_of(entries, c as int, n) == 0x3f00_0000,
    decreases n,
{
    if n > 0 {
        assert(number_of(entries[n - 1].category@) != Some(c));
        law_unnamed_categories(entries, c, (n - 1) as nat);
    }
}

} // verus!
