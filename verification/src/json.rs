//! A forward-only reader of the transaction payload.
//!
//! Strings and numerals are handed out as slices of the input. Escapes in
//! strings are not supported: a string that holds a backslash is refused.
use crate::bytes::{matches_at, same_bytes};
use crate::grammar::Section;
use vstd::prelude::*;
use vstd::slice::slice_subrange;

verus! {

use crate::bytes::{is_digit, stands_at};
use crate::grammar::{
    after_byte, after_digits, after_elements, after_members, after_numeric, after_space,
    after_value, all_digits, blank, category, closing_quote, decimal, forward, holds,
    last_transaction, member, members, merchant_list, numeral, object, root, root_members, text,
    transaction_of, truth, with_section, Transaction, MAX_KNOWN_MERCHANTS,
};

/// A transaction as its payload writes it.
///
/// The fields that the payload gives as numbers hold the numerals themselves:
/// each is a decimal numeral as `grammar::is_numeral` describes it.
#[derive(Debug, Clone, Copy)]
pub struct ParsedTransaction<'a> {
    pub amount: &'a [u8],
    pub installments: &'a [u8],
    pub requested_at: &'a [u8],
    pub customer_avg_amount: &'a [u8],
    pub tx_count_24h: &'a [u8],
    pub known_merchants: [&'a [u8]; 64],
    pub known_merchants_len: usize,
    pub merchant_id: &'a [u8],
    pub merchant_mcc: usize,
    pub merchant_avg_amount: &'a [u8],
    pub is_online: bool,
    pub card_present: bool,
    pub km_from_home: &'a [u8],
    pub last_timestamp: Option<&'a [u8]>,
    pub last_km_from_current: &'a [u8],
}

impl<'a> ParsedTransaction<'a> {
    /// The merchants that are known are the first ones of the array.
    pub open spec fn wf(&self) -> bool {
        self.known_merchants_len <= MAX_KNOWN_MERCHANTS
    }
}

impl<'a> View for ParsedTransaction<'a> {
    type V = Transaction;

    open spec fn view(&self) -> Transaction {
        Transaction {
            amount: self.amount@,
            installments: self.installments@,
            requested_at: self.requested_at@,
            customer_avg_amount: self.customer_avg_amount@,
            tx_count_24h: self.tx_count_24h@,
            known_merchants: Seq::new(
                self.known_merchants_len as nat,
                |i: int| self.known_merchants@[i]@,
            ),
            merchant_id: self.merchant_id@,
            merchant_mcc: self.merchant_mcc,
            merchant_avg_amount: self.merchant_avg_amount@,
            is_online: self.is_online,
            card_present: self.card_present,
            km_from_home: self.km_from_home@,
            last_timestamp: match self.last_timestamp {
                Some(x) => Some(x@),
                None => None,
            },
            last_km_from_current: self.last_km_from_current@,
        }
    }
}

impl<'a> Default for ParsedTransaction<'a> {
    fn default() -> (r: Self)
        ensures
            r.wf(),
            r@ == blank(),
    {
        let empty: &'a [u8] = &[];
        let zero: &'a [u8] = "0".as_bytes();
        let r = ParsedTransaction {
            amount: zero,
            installments: zero,
            requested_at: empty,
            customer_avg_amount: zero,
            tx_count_24h: zero,
            known_merchants: [empty; 64],
            known_merchants_len: 0,
            merchant_id: empty,
            merchant_mcc: usize::MAX,
            merchant_avg_amount: zero,
            is_online: false,
            card_present: false,
            km_from_home: zero,
            last_timestamp: None,
            last_km_from_current: zero,
        };
        assert(empty@ =~= Seq::<u8>::empty());
        assert(r@ =~~= blank());
        r
    }
}

/// Reads a payload from its beginning to its end.
pub struct Parser<'a> {
    pub input: &'a [u8],
    pub pos: usize,
}

impl<'a> Parser<'a> {
    pub open spec fn wf(&self) -> bool {
        self.pos <= self.input.len()
    }

    /// The byte at the position, if the input has not ended.
    pub fn peek(&self) -> (r: Option<u8>)
        requires
            self.wf(),
        ensures
            self.pos < self.input@.len() ==> r == Some(self.input@[self.pos as int]),
            self.pos == self.input@.len() ==> r is None,
    {
        if self.pos < self.input.len() {
            Some(self.input[self.pos])
        } else {
            None
        }
    }

    /// Whether the byte at the position is `byte`.
    fn at(&self, byte: u8) -> (r: bool)
        requires
            self.wf(),
        ensures
            r == holds(self.input@, self.pos as int, byte),
    {
        self.pos < self.input.len() && self.input[self.pos] == byte
    }

    /// Moves to the first position that is not whitespace.
    pub fn skip_ws(&mut self)
        requires
            old(self).wf(),
        ensures
            final(self).wf(),
            final(self).input == old(self).input,
            final(self).pos == after_space(old(self).input@, old(self).pos as int),
            final(self).pos >= old(self).pos,
    {
        let ghost start = self.pos as int;
        while self.pos < self.input.len() && (self.input[self.pos] == 0x20 || self.input[self.pos]
            == 0x0a || self.input[self.pos] == 0x0d || self.input[self.pos] == 0x09)
            invariant
                self.wf(),
                old(self).pos <= self.pos,
                self.input == old(self).input,
                after_space(self.input@, self.pos as int) == after_space(self.input@, start),
            decreases self.input@.len() - self.pos,
        {
            self.pos += 1;
        }
    }

    /// Moves past `byte` where it stands at the position.
    pub fn consume(&mut self, byte: u8) -> (r: bool)
        requires
            old(self).wf(),
        ensures
            final(self).wf(),
            final(self).input == old(self).input,
            r == holds(old(self).input@, old(self).pos as int, byte),
            final(self).pos == if r {
                old(self).pos + 1
            } else {
                old(self).pos as int
            },
    {
        if self.at(byte) {
            self.pos += 1;
            true
        } else {
            false
        }
    }

    /// Moves past `literal` where it stands at the position.
    pub fn consume_literal(&mut self, literal: &[u8]) -> (r: bool)
        requires
            old(self).wf(),
        ensures
            final(self).wf(),
            final(self).input == old(self).input,
            r == stands_at(old(self).input@, old(self).pos as int, literal@),
            final(self).pos == if r {
                old(self).pos + literal@.len()
            } else {
                old(self).pos as int
            },
    {
        if matches_at(self.input, self.pos, literal) {
            self.pos += literal.len();
            true
        } else {
            false
        }
    }

    /// Moves past whitespace and `byte`.
    pub fn expect(&mut self, byte: u8) -> (r: Option<()>)
        requires
            old(self).wf(),
        ensures
            final(self).wf(),
            final(self).input == old(self).input,
            final(self).pos >= old(self).pos,
            r is None ==> final(self).pos == after_space(
                old(self).input@,
                old(self).pos as int,
            ),
            r is Some <==> after_byte(old(self).input@, old(self).pos as int, byte) is Some,
            r is Some ==> final(self).pos == after_byte(
                old(self).input@,
                old(self).pos as int,
                byte,
            )->Some_0,
    {
        self.skip_ws();
        if self.consume(byte) {
            Some(())
        } else {
            None
        }
    }

    /// Reads a quoted string without escapes.
    pub fn string(&mut self) -> (r: Option<&'a [u8]>)
        requires
            old(self).wf(),
        ensures
            final(self).wf(),
            final(self).input == old(self).input,
            final(self).pos >= old(self).pos,
            match text(old(self).input@, old(self).pos as int) {
                Some((x, q)) => r matches Some(y) && y@ == x && final(self).pos == q,
                None => r is None,
            },
    {
        let input = self.input;
        if self.expect(0x22).is_none() {
            return None;
        }
        let start = self.pos;
        while self.pos < input.len()
            invariant
                self.wf(),
                old(self).pos <= self.pos,
                self.input == input,
                start <= self.pos,
                after_byte(old(self).input@, old(self).pos as int, 0x22) == Some(start as int),
                closing_quote(input@, self.pos as int) == closing_quote(input@, start as int),
                input == old(self).input,
            decreases input@.len() - self.pos,
        {
            let b = input[self.pos];
            if b == 0x5c {
                return None;
            }
            if b == 0x22 {
                let end = self.pos;
                self.pos += 1;
                return Some(slice_subrange(input, start, end));
            }
            self.pos += 1;
        }
        None
    }

    /// Moves past the digits at the position.
    fn digits(&mut self)
        requires
            old(self).wf(),
        ensures
            final(self).wf(),
            final(self).input == old(self).input,
            final(self).pos >= old(self).pos,
            final(self).pos == after_digits(old(self).input@, old(self).pos as int),
    {
        let ghost start = self.pos as int;
        while self.pos < self.input.len() && 0x30 <= self.input[self.pos]
            && self.input[self.pos] <= 0x39
            invariant
                self.wf(),
                old(self).pos <= self.pos,
                self.input == old(self).input,
                after_digits(self.input@, self.pos as int) == after_digits(self.input@, start),
            decreases self.input@.len() - self.pos,
        {
            self.pos += 1;
        }
    }

    /// Reads a decimal numeral. Where its parts make none, they are passed over all the same.
    pub fn number(&mut self) -> (r: Option<&'a [u8]>)
        requires
            old(self).wf(),
        ensures
            final(self).wf(),
            final(self).input == old(self).input,
            final(self).pos >= old(self).pos,
            final(self).pos == after_numeric(
                old(self).input@,
                after_space(old(self).input@, old(self).pos as int),
            ),
            match numeral(old(self).input@, old(self).pos as int) {
                Some((x, q)) => r matches Some(y) && y@ == x && final(self).pos == q,
                None => r is None,
            },
    {
        let input = self.input;
        self.skip_ws();
        let start = self.pos;
        self.consume(0x2d);
        let whole = self.pos;
        proof {
            crate::grammar::lemma_after_digits(input@, whole as int);
        }
        self.digits();
        let point = self.pos;
        if self.consume(0x2e) {
            proof {
                crate::grammar::lemma_after_digits(input@, self.pos as int);
            }
            self.digits();
        }
        let mantissa = self.pos;
        let mut complete = point > whole || mantissa - point > 1;
        if self.at(0x65) || self.at(0x45) {
            self.pos += 1;
            if self.at(0x2b) || self.at(0x2d) {
                self.pos += 1;
            }
            let sign = self.pos;
            proof {
                crate::grammar::lemma_after_digits(input@, sign as int);
            }
            self.digits();
            complete = complete && self.pos > sign;
        }
        if complete {
            Some(slice_subrange(input, start, self.pos))
        } else {
            None
        }
    }

    /// Reads a numeral that its reader takes for a whole number.
    pub fn integer(&mut self) -> (r: Option<&'a [u8]>)
        requires
            old(self).wf(),
        ensures
            final(self).wf(),
            final(self).input == old(self).input,
            final(self).pos >= old(self).pos,
            final(self).pos == after_numeric(
                old(self).input@,
                after_space(old(self).input@, old(self).pos as int),
            ),
            match numeral(old(self).input@, old(self).pos as int) {
                Some((x, q)) => r matches Some(y) && y@ == x && final(self).pos == q,
                None => r is None,
            },
    {
        self.number()
    }

    /// Reads `true` or `false`.
    pub fn boolean(&mut self) -> (r: Option<bool>)
        requires
            old(self).wf(),
        ensures
            final(self).wf(),
            final(self).input == old(self).input,
            final(self).pos >= old(self).pos,
            r is None ==> final(self).pos == after_space(
                old(self).input@,
                old(self).pos as int,
            ),
            match truth(old(self).input@, old(self).pos as int) {
                Some((x, q)) => r == Some(x) && final(self).pos == q,
                None => r is None,
            },
    {
        self.skip_ws();
        if self.consume_literal("true".as_bytes()) {
            Some(true)
        } else if self.consume_literal("false".as_bytes()) {
            Some(false)
        } else {
            None
        }
    }

    /// Moves past whitespace and a comma or a closing brace.
    pub fn object_sep_or_end(&mut self) -> (r: Option<()>)
        requires
            old(self).wf(),
        ensures
            final(self).wf(),
            final(self).input == old(self).input,
            final(self).pos >= old(self).pos,
            r is None ==> final(self).pos == after_space(
                old(self).input@,
                old(self).pos as int,
            ),
            ({
                let s = old(self).input@;
                let q = after_space(s, old(self).pos as int);
                if holds(s, q, 0x2c) || holds(s, q, 0x7d) {
                    r is Some && final(self).pos == q + 1
                } else {
                    r is None
                }
            }),
    {
        self.skip_ws();
        if self.consume(0x2c) || self.consume(0x7d) {
            Some(())
        } else {
            None
        }
    }

    /// Moves past a value of any kind.
    pub fn skip_value(&mut self) -> (r: Option<()>)
        requires
            old(self).wf(),
        ensures
            final(self).wf(),
            final(self).input == old(self).input,
            final(self).pos >= old(self).pos,
            match after_value(old(self).input@, old(self).pos as int) {
                Some(q) => r is Some && final(self).pos == q,
                None => r is None,
            },
        decreases old(self).input@.len() - old(self).pos, 2int,
    {
        proof {
            crate::grammar::lemma_after_space(self.input@, self.pos as int);
            crate::grammar::lemma_after_space(
                self.input@,
                after_space(self.input@, self.pos as int),
            );
        }
        self.skip_ws();
        let b = match self.peek() {
            Some(b) => b,
            None => {
                return None;
            },
        };
        if b == 0x22 {
            match self.string() {
                Some(_) => Some(()),
                None => None,
            }
        } else if b == 0x7b {
            self.skip_object()
        } else if b == 0x5b {
            self.skip_array()
        } else if b == 0x74 {
            if self.consume_literal("true".as_bytes()) {
                Some(())
            } else {
                None
            }
        } else if b == 0x66 {
            if self.consume_literal("false".as_bytes()) {
                Some(())
            } else {
                None
            }
        } else if b == 0x6e {
            if self.consume_literal("null".as_bytes()) {
                Some(())
            } else {
                None
            }
        } else {
            match self.number() {
                Some(_) => Some(()),
                None => None,
            }
        }
    }

    /// Moves past an object.
    pub fn skip_object(&mut self) -> (r: Option<()>)
        requires
            old(self).wf(),
        ensures
            final(self).wf(),
            final(self).input == old(self).input,
            final(self).pos >= old(self).pos,
            match after_byte(old(self).input@, old(self).pos as int, 0x7b) {
                Some(p) => match after_members(old(self).input@, p) {
                    Some(q) => r is Some && final(self).pos == q,
                    None => r is None,
                },
                None => r is None,
            },
        decreases old(self).input@.len() - old(self).pos, 1int,
    {
        let ghost s = self.input@;
        proof {
            crate::grammar::lemma_after_space(s, self.pos as int);
        }
        if self.expect(0x7b).is_none() {
            return None;
        }
        let ghost start = self.pos as int;
        loop
            invariant
                self.wf(),
                old(self).pos <= self.pos,
                self.input@ == s,
                self.input == old(self).input,
                after_byte(s, old(self).pos as int, 0x7b) == Some(start),
                old(self).pos < start <= self.pos,
                after_members(s, self.pos as int) == after_members(s, start),
            decreases s.len() - self.pos,
        {
            let ghost p = self.pos as int;
            proof {
                crate::grammar::lemma_key(s, p);
                crate::grammar::lemma_after_space(s, p);
            }
            self.skip_ws();
            if self.consume(0x7d) {
                return Some(());
            }
            if self.string().is_none() {
                return None;
            }
            if self.expect(0x3a).is_none() {
                return None;
            }
            let ghost v = self.pos as int;
            proof {
                crate::grammar::lemma_value_forward(s, v);
            }
            if self.skip_value().is_none() {
                return None;
            }
            proof {
                crate::grammar::lemma_after_space(s, self.pos as int);
            }
            self.skip_ws();
            if self.consume(0x2c) {
                continue;
            }
            return self.expect(0x7d);
        }
    }

    /// Moves past an array.
    pub fn skip_array(&mut self) -> (r: Option<()>)
        requires
            old(self).wf(),
        ensures
            final(self).wf(),
            final(self).input == old(self).input,
            final(self).pos >= old(self).pos,
            match after_byte(old(self).input@, old(self).pos as int, 0x5b) {
                Some(p) => match after_elements(old(self).input@, p) {
                    Some(q) => r is Some && final(self).pos == q,
                    None => r is None,
                },
                None => r is None,
            },
        decreases old(self).input@.len() - old(self).pos, 1int,
    {
        let ghost s = self.input@;
        proof {
            crate::grammar::lemma_after_space(s, self.pos as int);
        }
        if self.expect(0x5b).is_none() {
            return None;
        }
        let ghost start = self.pos as int;
        loop
            invariant
                self.wf(),
                old(self).pos <= self.pos,
                self.input@ == s,
                self.input == old(self).input,
                after_byte(s, old(self).pos as int, 0x5b) == Some(start),
                old(self).pos < start <= self.pos,
                after_elements(s, self.pos as int) == after_elements(s, start),
            decreases s.len() - self.pos,
        {
            proof {
                crate::grammar::lemma_after_space(s, self.pos as int);
            }
            self.skip_ws();
            if self.consume(0x5d) {
                return Some(());
            }
            proof {
                crate::grammar::lemma_value_forward(s, self.pos as int);
            }
            if self.skip_value().is_none() {
                return None;
            }
            proof {
                crate::grammar::lemma_after_space(s, self.pos as int);
            }
            self.skip_ws();
            if self.consume(0x2c) {
                continue;
            }
            return self.expect(0x5d);
        }
    }

    /// Reads the list of known merchants.
    pub fn parse_known_merchants(&mut self, out: &mut ParsedTransaction<'a>) -> (r: Option<()>)
        requires
            old(self).wf(),
            old(out).wf(),
        ensures
            final(self).wf(),
            final(out).wf(),
            final(self).input == old(self).input,
            final(self).pos >= old(self).pos,
            final(out)@ == with_section(Section::Customer, final(out)@, old(out)@),
            match after_byte(old(self).input@, old(self).pos as int, 0x5b) {
                Some(p) => match merchant_list(old(self).input@, p, old(out)@.known_merchants) {
                    Some((known, q)) => {
                        &&& r is Some
                        &&& final(out)@ == Transaction { known_merchants: known, ..old(out)@ }
                        &&& final(self).pos == q
                    },
                    None => r is None,
                },
                None => r is None,
            },
    {
        let ghost s = self.input@;
        proof {
            crate::grammar::lemma_after_space(s, self.pos as int);
        }
        if self.expect(0x5b).is_none() {
            return None;
        }
        let ghost start = self.pos as int;
        loop
            invariant
                self.wf(),
                old(self).pos <= self.pos,
                out.wf(),
                self.input@ == s,
                self.input == old(self).input,
                after_byte(s, old(self).pos as int, 0x5b) == Some(start),
                out@ == (Transaction { known_merchants: out@.known_merchants, ..old(out)@ }),
                merchant_list(s, self.pos as int, out@.known_merchants) == merchant_list(
                    s,
                    start,
                    old(out)@.known_merchants,
                ),
            decreases s.len() - self.pos,
        {
            proof {
                crate::grammar::lemma_after_space(s, self.pos as int);
                crate::grammar::lemma_text(s, after_space(s, self.pos as int));
            }
            self.skip_ws();
            if self.consume(0x5d) {
                return Some(());
            }
            let merchant = match self.string() {
                Some(m) => m,
                None => {
                    return None;
                },
            };
            let ghost known = out@.known_merchants;
            let ghost before = out@;
            if out.known_merchants_len < MAX_KNOWN_MERCHANTS {
                out.known_merchants[out.known_merchants_len] = merchant;
                out.known_merchants_len += 1;
                assert(out@.known_merchants =~= known.push(merchant@));
            }
            assert(out@ =~= (Transaction { known_merchants: out@.known_merchants, ..before }));
            proof {
                crate::grammar::lemma_after_space(s, self.pos as int);
            }
            self.skip_ws();
            if self.consume(0x2c) {
                continue;
            }
            return self.expect(0x5d);
        }
    }

    /// Reads the value of the member `name` of `section`.
    fn parse_member(
        &mut self,
        section: Section,
        name: &[u8],
        out: &mut ParsedTransaction<'a>,
    ) -> (r: Option<()>)
        requires
            old(self).wf(),
            old(out).wf(),
        ensures
            final(self).wf(),
            final(out).wf(),
            final(self).input == old(self).input,
            final(self).pos >= old(self).pos,
            final(out)@ == with_section(section, final(out)@, old(out)@),
            match member(
                section,
                name@,
                old(self).input@,
                old(self).pos as int,
                old(out)@,
            ) {
                Some((t, q)) => r is Some && final(out)@ == t && final(self).pos == q,
                None => r is None,
            },
    {
        match section {
            Section::Transaction => {
                if same_bytes(name, "amount".as_bytes()) {
                    out.amount = self.number()?;
                } else if same_bytes(name, "installments".as_bytes()) {
                    out.installments = self.integer()?;
                } else if same_bytes(name, "requested_at".as_bytes()) {
                    out.requested_at = self.string()?;
                } else {
                    self.skip_value()?;
                }
            },
            Section::Customer => {
                if same_bytes(name, "avg_amount".as_bytes()) {
                    out.customer_avg_amount = self.number()?;
                } else if same_bytes(name, "tx_count_24h".as_bytes()) {
                    out.tx_count_24h = self.integer()?;
                } else if same_bytes(name, "known_merchants".as_bytes()) {
                    self.parse_known_merchants(out)?;
                } else {
                    self.skip_value()?;
                }
            },
            Section::Merchant => {
                if same_bytes(name, "id".as_bytes()) {
                    out.merchant_id = self.string()?;
                } else if same_bytes(name, "mcc".as_bytes()) {
                    out.merchant_mcc = parse_usize_ascii(self.string()?);
                } else if same_bytes(name, "avg_amount".as_bytes()) {
                    out.merchant_avg_amount = self.number()?;
                } else {
                    self.skip_value()?;
                }
            },
            Section::Terminal => {
                if same_bytes(name, "is_online".as_bytes()) {
                    out.is_online = self.boolean()?;
                } else if same_bytes(name, "card_present".as_bytes()) {
                    out.card_present = self.boolean()?;
                } else if same_bytes(name, "km_from_home".as_bytes()) {
                    out.km_from_home = self.number()?;
                } else {
                    self.skip_value()?;
                }
            },
            Section::LastTransaction => {
                if same_bytes(name, "timestamp".as_bytes()) {
                    out.last_timestamp = Some(self.string()?);
                } else if same_bytes(name, "km_from_current".as_bytes()) {
                    out.last_km_from_current = self.number()?;
                } else {
                    self.skip_value()?;
                }
            },
        }
        Some(())
    }

    /// Reads the object `section`.
    fn parse_object(&mut self, section: Section, out: &mut ParsedTransaction<'a>) -> (r: Option<
        (),
    >)
        requires
            old(self).wf(),
            old(out).wf(),
        ensures
            final(self).wf(),
            final(out).wf(),
            final(self).input == old(self).input,
            final(self).pos >= old(self).pos,
            final(out)@ == with_section(section, final(out)@, old(out)@),
            match object(section, old(self).input@, old(self).pos as int, old(out)@) {
                Some((t, q)) => r is Some && final(out)@ == t && final(self).pos == q,
                None => r is None,
            },
    {
        let ghost s = self.input@;
        if self.expect(0x7b).is_none() {
            return None;
        }
        let ghost start = self.pos as int;
        loop
            invariant
                self.wf(),
                old(self).pos <= self.pos,
                out.wf(),
                self.input@ == s,
                self.input == old(self).input,
                after_byte(s, old(self).pos as int, 0x7b) == Some(start),
                out@ == with_section(section, out@, old(out)@),
                members(section, s, self.pos as int, out@) == members(
                    section,
                    s,
                    start,
                    old(out)@,
                ),
            decreases s.len() - self.pos,
        {
            let ghost before = out@;
            proof {
                crate::grammar::lemma_key(s, self.pos as int);
                crate::grammar::lemma_after_space(s, self.pos as int);
            }
            self.skip_ws();
            if self.consume(0x7d) {
                return Some(());
            }
            let name = match self.string() {
                Some(name) => name,
                None => {
                    return None;
                },
            };
            if self.expect(0x3a).is_none() {
                return None;
            }
            proof {
                crate::grammar::lemma_member_forward(
                    section,
                    name@,
                    s,
                    self.pos as int,
                    before,
                );
            }
            if self.parse_member(section, name, out).is_none() {
                return None;
            }
            proof {
                crate::grammar::lemma_after_space(s, self.pos as int);
            }
            if self.object_sep_or_end().is_none() {
                return None;
            }
            if self.input[self.pos - 1] == 0x7d {
                return Some(());
            }
        }
    }

    /// Reads the `transaction` object.
    pub fn parse_transaction_object(&mut self, out: &mut ParsedTransaction<'a>) -> (r: Option<()>)
        requires
            old(self).wf(),
            old(out).wf(),
        ensures
            final(self).wf(),
            final(out).wf(),
            final(self).input == old(self).input,
            final(self).pos >= old(self).pos,
            final(out)@ == with_section(Section::Transaction, final(out)@, old(out)@),
            match object(
                Section::Transaction,
                old(self).input@,
                old(self).pos as int,
                old(out)@,
            ) {
                Some((t, q)) => r is Some && final(out)@ == t && final(self).pos == q,
                None => r is None,
            },
    {
        self.parse_object(Section::Transaction, out)
    }

    /// Reads the `customer` object.
    pub fn parse_customer_object(&mut self, out: &mut ParsedTransaction<'a>) -> (r: Option<()>)
        requires
            old(self).wf(),
            old(out).wf(),
        ensures
            final(self).wf(),
            final(out).wf(),
            final(self).input == old(self).input,
            final(self).pos >= old(self).pos,
            final(out)@ == with_section(Section::Customer, final(out)@, old(out)@),
            match object(
                Section::Customer,
                old(self).input@,
                old(self).pos as int,
                old(out)@,
            ) {
                Some((t, q)) => r is Some && final(out)@ == t && final(self).pos == q,
                None => r is None,
            },
    {
        self.parse_object(Section::Customer, out)
    }

    /// Reads the `merchant` object.
    pub fn parse_merchant_object(&mut self, out: &mut ParsedTransaction<'a>) -> (r: Option<()>)
        requires
            old(self).wf(),
            old(out).wf(),
        ensures
            final(self).wf(),
            final(out).wf(),
            final(self).input == old(self).input,
            final(self).pos >= old(self).pos,
            final(out)@ == with_section(Section::Merchant, final(out)@, old(out)@),
            match object(
                Section::Merchant,
                old(self).input@,
                old(self).pos as int,
                old(out)@,
            ) {
                Some((t, q)) => r is Some && final(out)@ == t && final(self).pos == q,
                None => r is None,
            },
    {
        self.parse_object(Section::Merchant, out)
    }

    /// Reads the `terminal` object.
    pub fn parse_terminal_object(&mut self, out: &mut ParsedTransaction<'a>) -> (r: Option<()>)
        requires
            old(self).wf(),
            old(out).wf(),
        ensures
            final(self).wf(),
            final(out).wf(),
            final(self).input == old(self).input,
            final(self).pos >= old(self).pos,
            final(out)@ == with_section(Section::Terminal, final(out)@, old(out)@),
            match object(
                Section::Terminal,
                old(self).input@,
                old(self).pos as int,
                old(out)@,
            ) {
                Some((t, q)) => r is Some && final(out)@ == t && final(self).pos == q,
                None => r is None,
            },
    {
        self.parse_object(Section::Terminal, out)
    }

    /// Reads the value of `last_transaction`, which may be `null`.
    pub fn parse_last_transaction(&mut self, out: &mut ParsedTransaction<'a>) -> (r: Option<()>)
        requires
            old(self).wf(),
            old(out).wf(),
        ensures
            final(self).wf(),
            final(out).wf(),
            final(self).input == old(self).input,
            final(self).pos >= old(self).pos,
            final(out)@ == with_section(Section::LastTransaction, final(out)@, old(out)@),
            match last_transaction(old(self).input@, old(self).pos as int, old(out)@) {
                Some((t, q)) => r is Some && final(out)@ == t && final(self).pos == q,
                None => r is None,
            },
    {
        self.skip_ws();
        if self.consume_literal("null".as_bytes()) {
            out.last_timestamp = None;
            out.last_km_from_current = "0".as_bytes();
            return Some(());
        }
        self.parse_object(Section::LastTransaction, out)
    }

    /// Reads the payload.
    pub fn parse_root(&mut self, out: &mut ParsedTransaction<'a>) -> (r: Option<()>)
        requires
            old(self).wf(),
            old(out).wf(),
        ensures
            final(self).wf(),
            final(out).wf(),
            final(self).input == old(self).input,
            final(self).pos >= old(self).pos,
            match root(old(self).input@, old(self).pos as int, old(out)@) {
                Some((t, q)) => r is Some && final(out)@ == t && final(self).pos == q,
                None => r is None,
            },
    {
        let ghost s = self.input@;
        if self.expect(0x7b).is_none() {
            return None;
        }
        let ghost start = self.pos as int;
        loop
            invariant
                self.wf(),
                old(self).pos <= self.pos,
                out.wf(),
                self.input@ == s,
                self.input == old(self).input,
                after_byte(s, old(self).pos as int, 0x7b) == Some(start),
                root_members(s, self.pos as int, out@) == root_members(s, start, old(out)@),
            decreases s.len() - self.pos,
        {
            let ghost before = out@;
            proof {
                crate::grammar::lemma_key(s, self.pos as int);
                crate::grammar::lemma_after_space(s, self.pos as int);
            }
            self.skip_ws();
            if self.consume(0x7d) {
                return Some(());
            }
            let name = match self.string() {
                Some(name) => name,
                None => {
                    return None;
                },
            };
            if self.expect(0x3a).is_none() {
                return None;
            }
            proof {
                crate::grammar::lemma_root_member_forward(name@, s, self.pos as int, before);
            }
            let read = if same_bytes(name, "transaction".as_bytes()) {
                self.parse_transaction_object(out)
            } else if same_bytes(name, "customer".as_bytes()) {
                self.parse_customer_object(out)
            } else if same_bytes(name, "merchant".as_bytes()) {
                self.parse_merchant_object(out)
            } else if same_bytes(name, "terminal".as_bytes()) {
                self.parse_terminal_object(out)
            } else if same_bytes(name, "last_transaction".as_bytes()) {
                self.parse_last_transaction(out)
            } else {
                self.skip_value()
            };
            if read.is_none() {
                return None;
            }
            proof {
                crate::grammar::lemma_after_space(s, self.pos as int);
            }
            self.skip_ws();
            if self.consume(0x2c) {
                continue;
            }
            return self.expect(0x7d);
        }
    }
}

/// The number that `bytes` writes in decimal; `usize::MAX` where a byte is no digit
/// or the number does not fit.
pub fn parse_usize_ascii(bytes: &[u8]) -> (r: usize)
    ensures
        r == category(bytes@),
        (forall|i: int| 0 <= i < bytes@.len() ==> 0x30 <= #[trigger] bytes@[i] <= 0x39) && decimal(
            bytes@,
        ) <= usize::MAX ==> r == decimal(bytes@),
{
    proof {
        crate::grammar::law_categories_are_their_numbers(bytes@);
    }
    let mut out: usize = 0;
    let mut i: usize = 0;
    while i < bytes.len()
        invariant
            i <= bytes.len(),
            all_digits(bytes@.take(i as int)),
            out == decimal(bytes@.take(i as int)),
        decreases bytes.len() - i,
    {
        let b = bytes[i];
        if !(0x30 <= b && b <= 0x39) {
            assert(!is_digit(bytes@[i as int]));
            return usize::MAX;
        }
        let ghost grown = bytes@.take(i + 1);
        assert(grown.drop_last() =~= bytes@.take(i as int));
        assert(all_digits(grown)) by {
            assert forall|j: int| 0 <= j < grown.len() implies is_digit(#[trigger] grown[j]) by {
                if j < i {
                    assert(is_digit(bytes@.take(i as int)[j]));
                }
            }
        }
        let digit = (b - 0x30) as usize;
        if out > (usize::MAX - digit) / 10 {
            proof {
                if all_digits(bytes@) {
                    assert(decimal(grown) > usize::MAX);
                    lemma_decimal_grows(bytes@, i + 1);
                }
            }
            return usize::MAX;
        }
        out = out * 10 + digit;
        i += 1;
    }
    assert(bytes@.take(i as int) =~= bytes@);
    out
}

/// Digits behind a number never make it smaller.
proof fn lemma_decimal_grows(bytes: Seq<u8>, n: int)
    requires
        all_digits(bytes),
        0 <= n <= bytes.len(),
    ensures
        0 <= decimal(bytes.take(n)) <= decimal(bytes),
    decreases bytes.len(),
{
    if n == bytes.len() {
        assert(bytes.take(n) =~= bytes);
        if n > 0 {
            assert(is_digit(bytes.last()));
            assert forall|j: int| 0 <= j < bytes.drop_last().len() implies is_digit(
                #[trigger] bytes.drop_last()[j],
            ) by {
                assert(is_digit(bytes[j]));
            }
            lemma_decimal_grows(bytes.drop_last(), n - 1);
            assert(bytes.drop_last().take(n - 1) =~= bytes.drop_last());
        }
    } else {
        assert(is_digit(bytes.last()));
        assert forall|j: int| 0 <= j < bytes.drop_last().len() implies is_digit(
            #[trigger] bytes.drop_last()[j],
        ) by {
            assert(is_digit(bytes[j]));
        }
        lemma_decimal_grows(bytes.drop_last(), n);
        assert(bytes.drop_last().take(n) =~= bytes.take(n));
    }
}

/// Reads the transaction that a payload describes.
pub fn parse_transaction(input: &[u8]) -> (r: Option<ParsedTransaction<'_>>)
    ensures
        match transaction_of(input@) {
            Some(t) => r matches Some(x) && x.wf() && x@ == t,
            None => r is None,
        },
{
    let mut parser = Parser { input, pos: 0 };
    let mut out = ParsedTransaction::default();
    if parser.parse_root(&mut out).is_none() {
        return None;
    }
    if out.requested_at.len() == 0 || out.merchant_id.len() == 0 {
        return None;
    }
    Some(out)
}


} // verus!
