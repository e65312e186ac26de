//! Reading a transaction out of a request body.
//!
//! Reading goes in two steps. [`parse_transaction`] finds what the body says and keeps
//! every number as the text of a decimal literal. [`ScannedTx::resolve`] takes the values
//! of those literals and settles the defaults and the checks that depend on them.
use vstd::prelude::*;
use vstd::string::StringSliceAdditionalSpecFns;

use crate::bytes::{bytes_eq, CLOSE_BRACKET, COMMA, OPEN_BRACE, OPEN_BRACKET, QUOTE};
use crate::iso::{
    hour_and_weekday, lemma_hour_and_weekday, parse_iso_hour_and_day, parse_iso_seconds,
    unix_seconds,
};
use crate::json::{
    after_space, after_value, bool_at, byte_at, colon_at, is_decimal, key_at, lemma_after_space,
    lemma_after_value, lemma_bool_at, lemma_colon_at, lemma_key_at, lemma_null_at,
    law_number_is_decimal, lemma_number_at, lemma_string_at, null_at, number_at, slice_view,
    string_at, Parser,
};

verus! {

/// The longest body that is read.
pub const MAX_BODY: usize = 65_536;

/// How many known merchants are kept.
pub const KNOWN_CAP: usize = 64;

/// How many bytes of a merchant id are kept.
pub const ID_BUF: usize = 32;

/// A merchant category code as the body writes it.
#[derive(Clone, Copy, Debug)]
pub enum Mcc<'a> {
    Text(&'a [u8]),
    Number(&'a [u8]),
}

/// What a body says of a transaction, every number by the text of its decimal literal.
#[derive(Debug)]
pub struct ScannedTx<'a> {
    pub amount: Option<&'a [u8]>,
    pub installments: Option<&'a [u8]>,
    pub customer_avg_amount: Option<&'a [u8]>,
    pub merchant_avg_amount: Option<&'a [u8]>,
    pub tx_count_24h: Option<&'a [u8]>,
    pub km_from_home: Option<&'a [u8]>,
    pub km_from_last_tx: Option<&'a [u8]>,
    pub requested_at_seconds: i64,
    pub hour_of_day: u8,
    pub day_of_week: u8,
    pub mcc: Mcc<'a>,
    pub is_online: bool,
    pub card_present: bool,
    /// At most [`ID_BUF`] bytes of the merchant's id.
    pub merchant_id: &'a [u8],
    /// At most [`KNOWN_CAP`] ids, at most [`ID_BUF`] bytes of each.
    pub known_merchants: Vec<&'a [u8]>,
    pub last_tx_seconds: Option<i64>,
    /// No timestamp of the request was unreadable, and the body was read at all.
    pub parse_ok: bool,
    /// The members of the body were read up to the last.
    pub complete: bool,
}

pub enum MccText {
    Text(Seq<u8>),
    Number(Seq<u8>),
}

/// The contents of a [`ScannedTx`].
pub struct TxText {
    pub amount: Option<Seq<u8>>,
    pub installments: Option<Seq<u8>>,
    pub customer_avg_amount: Option<Seq<u8>>,
    pub merchant_avg_amount: Option<Seq<u8>>,
    pub tx_count_24h: Option<Seq<u8>>,
    pub km_from_home: Option<Seq<u8>>,
    pub km_from_last_tx: Option<Seq<u8>>,
    pub requested_at_seconds: int,
    pub hour_of_day: int,
    pub day_of_week: int,
    pub mcc: MccText,
    pub is_online: bool,
    pub card_present: bool,
    pub merchant_id: Seq<u8>,
    pub known_merchants: Seq<Seq<u8>>,
    pub last_tx_seconds: Option<int>,
    pub parse_ok: bool,
    pub complete: bool,
}

pub open spec fn contents(ids: Seq<&[u8]>) -> Seq<Seq<u8>> {
    ids.map_values(|id: &[u8]| id@)
}

impl<'a> View for Mcc<'a> {
    type V = MccText;

    open spec fn view(&self) -> MccText {
        match self {
            Mcc::Text(s) => MccText::Text(s@),
            Mcc::Number(s) => MccText::Number(s@),
        }
    }
}

impl<'a> View for ScannedTx<'a> {
    type V = TxText;

    open spec fn view(&self) -> TxText {
        TxText {
            amount: slice_view(self.amount),
            installments: slice_view(self.installments),
            customer_avg_amount: slice_view(self.customer_avg_amount),
            merchant_avg_amount: slice_view(self.merchant_avg_amount),
            tx_count_24h: slice_view(self.tx_count_24h),
            km_from_home: slice_view(self.km_from_home),
            km_from_last_tx: slice_view(self.km_from_last_tx),
            requested_at_seconds: self.requested_at_seconds as int,
            hour_of_day: self.hour_of_day as int,
            day_of_week: self.day_of_week as int,
            mcc: self.mcc@,
            is_online: self.is_online,
            card_present: self.card_present,
            merchant_id: self.merchant_id@,
            known_merchants: contents(self.known_merchants@),
            last_tx_seconds: match self.last_tx_seconds {
                Some(s) => Some(s as int),
                None => None,
            },
            parse_ok: self.parse_ok,
            complete: self.complete,
        }
    }
}

/// A transaction of which nothing has been read: noon on a Thursday, card present, no
/// merchant.
pub open spec fn unread() -> TxText {
    TxText {
        amount: None,
        installments: None,
        customer_avg_amount: None,
        merchant_avg_amount: None,
        tx_count_24h: None,
        km_from_home: None,
        km_from_last_tx: None,
        requested_at_seconds: 0,
        hour_of_day: 12,
        day_of_week: 3,
        mcc: MccText::Text(Seq::empty()),
        is_online: false,
        card_present: true,
        merchant_id: Seq::empty(),
        known_merchants: Seq::empty(),
        last_tx_seconds: None,
        parse_ok: true,
        complete: false,
    }
}

/// The nested objects of a body.
pub enum Section {
    Transaction,
    Customer,
    Merchant,
    Terminal,
    LastTransaction,
}

/// The number at `pos`; a value of another kind is passed.
pub open spec fn number_field(text: Seq<u8>, pos: int) -> (Option<Seq<u8>>, int) {
    match number_at(text, pos) {
        (Some(v), next) => (Some(v), next),
        (None, next) => (None, after_value(text, next)),
    }
}

/// The string at `pos`; a value of another kind is passed.
pub open spec fn string_field(text: Seq<u8>, pos: int) -> (Option<Seq<u8>>, int) {
    match string_at(text, pos) {
        (Some(v), next) => (Some(v), next),
        (None, next) => (None, after_value(text, next)),
    }
}

/// The truth value at `pos`; a value of another kind is passed.
pub open spec fn bool_field(text: Seq<u8>, pos: int) -> (Option<bool>, int) {
    match bool_at(text, pos) {
        (Some(v), next) => (Some(v), next),
        (None, next) => (None, after_value(text, next)),
    }
}

/// A string, or else a number, as a merchant category code.
pub open spec fn mcc_field(text: Seq<u8>, pos: int) -> (Option<MccText>, int) {
    match string_at(text, pos) {
        (Some(s), next) => (Some(MccText::Text(s)), next),
        (None, next) => match number_field(text, next) {
            (Some(v), last) => (Some(MccText::Number(v)), last),
            (None, last) => (None, last),
        },
    }
}

/// The bytes of an id that are kept.
pub open spec fn kept_id(id: Seq<u8>) -> Seq<u8> {
    if id.len() > ID_BUF {
        id.take(ID_BUF as int)
    } else {
        id
    }
}

/// The list with one more id, unless it is full.
pub open spec fn with_known(known: Seq<Seq<u8>>, id: Seq<u8>) -> Seq<Seq<u8>> {
    if known.len() < KNOWN_CAP {
        known.push(kept_id(id))
    } else {
        known
    }
}

/// The ids in the rest of an array. Reading stops at the end of the array and at whatever
/// is no string.
pub open spec fn known_items(text: Seq<u8>, pos: int, known: Seq<Seq<u8>>) -> (
    Seq<Seq<u8>>,
    int,
)
    decreases text.len() - pos,
    when 0 <= pos <= text.len()
{
    proof {
        lemma_after_space(text, pos);
        lemma_string_at(text, after_space(text, pos));
    }
    let item = after_space(text, pos);
    if byte_at(text, item) == Some(CLOSE_BRACKET) {
        (known, item + 1)
    } else if byte_at(text, item) == Some(COMMA) {
        known_items(text, item + 1, known)
    } else if byte_at(text, item) == Some(QUOTE) {
        match string_at(text, item) {
            (Some(id), next) => known_items(text, next, with_known(known, id)),
            (None, next) => (known, next),
        }
    } else {
        (known, item)
    }
}

/// The ids in the array at `pos`, behind those known already.
pub open spec fn known_at(text: Seq<u8>, pos: int, known: Seq<Seq<u8>>) -> (Seq<Seq<u8>>, int) {
    let first = after_space(text, pos);
    if byte_at(text, first) == Some(OPEN_BRACKET) {
        known_items(text, first + 1, known)
    } else {
        (known, after_value(text, first))
    }
}

/// The transaction with the time of the request set. What cannot be read of it stays as it
/// was, and the transaction is refused.
pub open spec fn with_request_time(tx: TxText, stamp: Seq<u8>) -> TxText {
    let (hour_of_day, day_of_week) = match hour_and_weekday(stamp) {
        Some(found) => found,
        None => (tx.hour_of_day, tx.day_of_week),
    };
    TxText {
        hour_of_day,
        day_of_week,
        requested_at_seconds: match unix_seconds(stamp) {
            Some(seconds) => seconds,
            None => tx.requested_at_seconds,
        },
        parse_ok: tx.parse_ok && hour_and_weekday(stamp) is Some && unix_seconds(stamp) is Some,
        ..tx
    }
}

/// The value found, or else the one before.
pub open spec fn or_kept<T>(found: Option<T>, before: Option<T>) -> Option<T> {
    if found is Some {
        found
    } else {
        before
    }
}

pub open spec fn transaction_member(text: Seq<u8>, pos: int, key: Seq<u8>, tx: TxText) -> (
    TxText,
    int,
) {
    if key == "amount".spec_bytes() {
        let (v, next) = number_field(text, pos);
        (TxText { amount: or_kept(v, tx.amount), ..tx }, next)
    } else if key == "installments".spec_bytes() {
        let (v, next) = number_field(text, pos);
        (TxText { installments: or_kept(v, tx.installments), ..tx }, next)
    } else if key == "requested_at".spec_bytes() {
        let (v, next) = string_field(text, pos);
        (
            match v {
                Some(stamp) => with_request_time(tx, stamp),
                None => tx,
            },
            next,
        )
    } else {
        (tx, after_value(text, pos))
    }
}

pub open spec fn customer_member(text: Seq<u8>, pos: int, key: Seq<u8>, tx: TxText) -> (
    TxText,
    int,
) {
    if key == "avg_amount".spec_bytes() {
        let (v, next) = number_field(text, pos);
        (TxText { customer_avg_amount: or_kept(v, tx.customer_avg_amount), ..tx }, next)
    } else if key == "tx_count_24h".spec_bytes() {
        let (v, next) = number_field(text, pos);
        (TxText { tx_count_24h: or_kept(v, tx.tx_count_24h), ..tx }, next)
    } else if key == "known_merchants".spec_bytes() {
        let (known_merchants, next) = known_at(text, pos, tx.known_merchants);
        (TxText { known_merchants, ..tx }, next)
    } else {
        (tx, after_value(text, pos))
    }
}

pub open spec fn merchant_member(text: Seq<u8>, pos: int, key: Seq<u8>, tx: TxText) -> (
    TxText,
    int,
) {
    if key == "id".spec_bytes() {
        let (v, next) = string_field(text, pos);
        (
            match v {
                Some(id) => TxText { merchant_id: kept_id(id), ..tx },
                None => tx,
            },
            next,
        )
    } else if key == "mcc".spec_bytes() {
        let (v, next) = mcc_field(text, pos);
        (
            match v {
                Some(mcc) => TxText { mcc, ..tx },
                None => tx,
            },
            next,
        )
    } else if key == "avg_amount".spec_bytes() {
        let (v, next) = number_field(text, pos);
        (TxText { merchant_avg_amount: or_kept(v, tx.merchant_avg_amount), ..tx }, next)
    } else {
        (tx, after_value(text, pos))
    }
}

pub open spec fn terminal_member(text: Seq<u8>, pos: int, key: Seq<u8>, tx: TxText) -> (
    TxText,
    int,
) {
    if key == "is_online".spec_bytes() {
        let (v, next) = bool_field(text, pos);
        (
            match v {
                Some(is_online) => TxText { is_online, ..tx },
                None => tx,
            },
            next,
        )
    } else if key == "card_present".spec_bytes() {
        let (v, next) = bool_field(text, pos);
        (
            match v {
                Some(card_present) => TxText { card_present, ..tx },
                None => tx,
            },
            next,
        )
    } else if key == "km_from_home".spec_bytes() {
        let (v, next) = number_field(text, pos);
        (TxText { km_from_home: or_kept(v, tx.km_from_home), ..tx }, next)
    } else {
        (tx, after_value(text, pos))
    }
}

pub open spec fn last_transaction_member(
    text: Seq<u8>,
    pos: int,
    key: Seq<u8>,
    tx: TxText,
) -> (TxText, int) {
    if key == "timestamp".spec_bytes() {
        let (v, next) = string_field(text, pos);
        (
            match v {
                Some(stamp) => TxText {
                    last_tx_seconds: or_kept(unix_seconds(stamp), tx.last_tx_seconds),
                    ..tx
                },
                None => tx,
            },
            next,
        )
    } else if key == "km_from_current".spec_bytes() {
        let (v, next) = number_field(text, pos);
        (TxText { km_from_last_tx: or_kept(v, tx.km_from_last_tx), ..tx }, next)
    } else {
        (tx, after_value(text, pos))
    }
}

/// What the value at `pos` of the member named `key` adds to the transaction.
pub open spec fn member(
    section: Section,
    text: Seq<u8>,
    pos: int,
    key: Seq<u8>,
    tx: TxText,
) -> (TxText, int) {
    match section {
        Section::Transaction => transaction_member(text, pos, key, tx),
        Section::Customer => customer_member(text, pos, key, tx),
        Section::Merchant => merchant_member(text, pos, key, tx),
        Section::Terminal => terminal_member(text, pos, key, tx),
        Section::LastTransaction => last_transaction_member(text, pos, key, tx),
    }
}

/// What the rest of a section's members add to the transaction. Reading stops where no
/// key stands and at a key without a colon.
pub open spec fn members(section: Section, text: Seq<u8>, pos: int, tx: TxText) -> (TxText, int)
    decreases text.len() - pos,
    when 0 <= pos <= text.len()
{
    proof {
        lemma_key_at(text, pos);
        lemma_colon_at(text, key_at(text, pos).1);
        if let Some(key) = key_at(text, pos).0 {
            lemma_member(section, text, colon_at(text, key_at(text, pos).1).1, key, tx);
        }
    }
    match key_at(text, pos) {
        (None, next) => (tx, next),
        (Some(key), next) => match colon_at(text, next) {
            (false, last) => (tx, last),
            (true, value) => {
                let (tx2, rest) = member(section, text, value, key, tx);
                members(section, text, rest, tx2)
            },
        },
    }
}

/// What the section at `pos` adds to the transaction. A value that is no object adds
/// nothing and is passed.
pub open spec fn section_at(section: Section, text: Seq<u8>, pos: int, tx: TxText) -> (
    TxText,
    int,
) {
    let first = after_space(text, pos);
    if section is LastTransaction && null_at(text, first).0 {
        (tx, null_at(text, first).1)
    } else if byte_at(text, first) == Some(OPEN_BRACE) {
        members(section, text, first + 1, tx)
    } else {
        (tx, after_value(text, first))
    }
}

/// The section that a key of the body names.
pub open spec fn section_named(key: Seq<u8>) -> Option<Section> {
    if key == "transaction".spec_bytes() {
        Some(Section::Transaction)
    } else if key == "customer".spec_bytes() {
        Some(Section::Customer)
    } else if key == "merchant".spec_bytes() {
        Some(Section::Merchant)
    } else if key == "terminal".spec_bytes() {
        Some(Section::Terminal)
    } else if key == "last_transaction".spec_bytes() {
        Some(Section::LastTransaction)
    } else {
        None
    }
}

/// What the rest of the body's members say. A key without a colon refuses the body.
pub open spec fn sections(text: Seq<u8>, pos: int, tx: TxText) -> TxText
    decreases text.len() - pos,
    when 0 <= pos <= text.len()
{
    proof {
        lemma_key_at(text, pos);
        let value = colon_at(text, key_at(text, pos).1).1;
        lemma_colon_at(text, key_at(text, pos).1);
        lemma_after_value(text, value);
        if let Some(key) = key_at(text, pos).0 {
            if let Some(section) = section_named(key) {
                lemma_section_at(section, text, value, tx);
            }
        }
    }
    match key_at(text, pos) {
        (None, _) => TxText { complete: true, ..tx },
        (Some(key), next) => match colon_at(text, next) {
            (false, _) => TxText { parse_ok: false, ..tx },
            (true, value) => match section_named(key) {
                Some(section) => {
                    let (tx2, rest) = section_at(section, text, value, tx);
                    sections(text, rest, tx2)
                },
                None => sections(text, after_value(text, value), tx),
            },
        },
    }
}

/// What a body says of a transaction. A body that is empty, too long or no object says
/// nothing and is refused.
pub open spec fn scanned(text: Seq<u8>) -> TxText {
    let first = after_space(text, 0);
    if 0 < text.len() <= MAX_BODY && byte_at(text, first) == Some(OPEN_BRACE) {
        sections(text, first + 1, unread())
    } else {
        TxText { parse_ok: false, ..unread() }
    }
}

pub proof fn lemma_fields(text: Seq<u8>, pos: int)
    requires
        0 <= pos <= text.len(),
    ensures
        pos <= number_field(text, pos).1 <= text.len(),
        pos <= string_field(text, pos).1 <= text.len(),
        pos <= bool_field(text, pos).1 <= text.len(),
        pos <= mcc_field(text, pos).1 <= text.len(),
        pos <= after_value(text, pos) <= text.len(),
{
    lemma_after_value(text, pos);
    lemma_number_at(text, pos);
    lemma_string_at(text, pos);
    lemma_bool_at(text, pos);
    lemma_after_value(text, number_at(text, pos).1);
    lemma_after_value(text, string_at(text, pos).1);
    lemma_after_value(text, bool_at(text, pos).1);
    let next = string_at(text, pos).1;
    lemma_number_at(text, next);
    lemma_after_value(text, number_at(text, next).1);
}

pub proof fn lemma_known_items(text: Seq<u8>, pos: int, known: Seq<Seq<u8>>)
    requires
        0 <= pos <= text.len(),
    ensures
        pos <= known_items(text, pos, known).1 <= text.len(),
    decreases text.len() - pos,
{
    lemma_after_space(text, pos);
    let item = after_space(text, pos);
    lemma_string_at(text, item);
    if byte_at(text, item) == Some(COMMA) {
        lemma_known_items(text, item + 1, known);
    } else if byte_at(text, item) == Some(QUOTE) {
        if let (Some(id), next) = string_at(text, item) {
            lemma_known_items(text, next, with_known(known, id));
        }
    }
}

pub proof fn lemma_member(section: Section, text: Seq<u8>, pos: int, key: Seq<u8>, tx: TxText)
    requires
        0 <= pos <= text.len(),
    ensures
        pos <= member(section, text, pos, key, tx).1 <= text.len(),
{
    lemma_fields(text, pos);
    lemma_after_space(text, pos);
    let first = after_space(text, pos);
    lemma_after_value(text, first);
    if byte_at(text, first) == Some(OPEN_BRACKET) {
        lemma_known_items(text, first + 1, tx.known_merchants);
    }
}

pub proof fn lemma_members(section: Section, text: Seq<u8>, pos: int, tx: TxText)
    requires
        0 <= pos <= text.len(),
    ensures
        pos <= members(section, text, pos, tx).1 <= text.len(),
    decreases text.len() - pos,
{
    lemma_key_at(text, pos);
    if let (Some(key), next) = key_at(text, pos) {
        lemma_colon_at(text, next);
        if let (true, value) = colon_at(text, next) {
            lemma_member(section, text, value, key, tx);
            let (tx2, rest) = member(section, text, value, key, tx);
            lemma_members(section, text, rest, tx2);
        }
    }
}

pub proof fn lemma_section_at(section: Section, text: Seq<u8>, pos: int, tx: TxText)
    requires
        0 <= pos <= text.len(),
    ensures
        pos <= section_at(section, text, pos, tx).1 <= text.len(),
{
    lemma_after_space(text, pos);
    let first = after_space(text, pos);
    lemma_null_at(text, first);
    lemma_after_value(text, first);
    if byte_at(text, first) == Some(OPEN_BRACE) {
        lemma_members(section, text, first + 1, tx);
    }
}

/// A number; a value of another kind is passed.
fn number_or_skip<'a>(p: &mut Parser<'a>) -> (r: Option<&'a [u8]>)
    requires
        old(p).wf(),
    ensures
        slice_view(r) == number_field(old(p).body@, old(p).pos as int).0,
        final(p).moved_to(old(p).body@, number_field(old(p).body@, old(p).pos as int).1),
{
    let r = p.parse_number();
    if r.is_none() {
        p.skip_value();
    }
    r
}

/// A string; a value of another kind is passed.
fn string_or_skip<'a>(p: &mut Parser<'a>) -> (r: Option<&'a [u8]>)
    requires
        old(p).wf(),
    ensures
        slice_view(r) == string_field(old(p).body@, old(p).pos as int).0,
        final(p).moved_to(old(p).body@, string_field(old(p).body@, old(p).pos as int).1),
{
    let r = p.parse_string_slice();
    if r.is_none() {
        p.skip_value();
    }
    r
}

/// A truth value; a value of another kind is passed.
fn bool_or_skip<'a>(p: &mut Parser<'a>) -> (r: Option<bool>)
    requires
        old(p).wf(),
    ensures
        r == bool_field(old(p).body@, old(p).pos as int).0,
        final(p).moved_to(old(p).body@, bool_field(old(p).body@, old(p).pos as int).1),
{
    let r = p.parse_bool();
    if r.is_none() {
        p.skip_value();
    }
    r
}

/// The bytes of an id that are kept.
fn keep_id<'a>(id: &'a [u8]) -> (r: &'a [u8])
    ensures
        r@ == kept_id(id@),
{
    if id.len() > ID_BUF {
        &id[0..ID_BUF]
    } else {
        id
    }
}

/// Sets the time of the request.
fn apply_iso(tx: &mut ScannedTx, value: &[u8])
    ensures
        final(tx)@ == with_request_time(old(tx)@, value@),
{
    match parse_iso_hour_and_day(value) {
        Some((hour, day)) => {
            tx.hour_of_day = hour;
            tx.day_of_week = day;
        },
        None => {
            tx.parse_ok = false;
        },
    }
    match parse_iso_seconds(value) {
        Some(seconds) => {
            tx.requested_at_seconds = seconds;
        },
        None => {
            tx.parse_ok = false;
        },
    }
}

/// Adds the ids of the array under the cursor to those known already.
pub fn parse_known_merchants<'a>(p: &mut Parser<'a>, known: &mut Vec<&'a [u8]>)
    requires
        old(p).wf(),
    ensures
        contents(final(known)@) == known_at(
            old(p).body@,
            old(p).pos as int,
            contents(old(known)@),
        ).0,
        final(p).moved_to(
            old(p).body@,
            known_at(old(p).body@, old(p).pos as int, contents(old(known)@)).1,
        ),
{
    p.skip_ws();
    if !p.at(OPEN_BRACKET) {
        p.skip_value();
        return ;
    }
    p.advance(1);
    let ghost text = p.body@;
    let ghost start = p.pos as int;
    let ghost known0 = contents(known@);
    loop
        invariant
            p.wf(),
            p.body@ == text,
            known_items(text, start, known0) == known_items(
                text,
                p.pos as int,
                contents(known@),
            ),
            text == old(p).body@,
            known0 == contents(old(known)@),
            known_at(text, old(p).pos as int, known0) == known_items(text, start, known0),
        decreases p.body@.len() - p.pos,
    {
        proof {
            lemma_after_space(text, p.pos as int);
            lemma_string_at(text, after_space(text, p.pos as int));
        }
        p.skip_ws();
        if p.at(CLOSE_BRACKET) {
            p.advance(1);
            return ;
        } else if p.at(COMMA) {
            p.advance(1);
        } else if p.at(QUOTE) {
            match p.parse_string_slice() {
                Some(id) => {
                    if known.len() < KNOWN_CAP {
                        let kept = keep_id(id);
                        let ghost before = known@;
                        known.push(kept);
                        assert(contents(known@) =~= contents(before).push(kept@));
                    }
                },
                None => {
                    return ;
                },
            }
        } else {
            return ;
        }
    }
}

/// Reads the transaction section.
pub fn parse_transaction_block<'a>(p: &mut Parser<'a>, tx: &mut ScannedTx<'a>)
    requires
        old(p).wf(),
    ensures
        final(tx)@ == section_at(
            Section::Transaction,
            old(p).body@,
            old(p).pos as int,
            old(tx)@,
        ).0,
        final(p).moved_to(
            old(p).body@,
            section_at(Section::Transaction, old(p).body@, old(p).pos as int, old(tx)@).1,
        ),
{
    proof {
        lemma_after_space(p.body@, p.pos as int);
    }
    p.skip_ws();
    if !p.at(OPEN_BRACE) {
        p.skip_value();
        return ;
    }
    p.advance(1);
    let ghost text = p.body@;
    let ghost start = p.pos as int;
    let ghost tx0 = tx@;
    loop
        invariant
            p.wf(),
            p.body@ == text,
            members(Section::Transaction, text, start, tx0) == members(
                Section::Transaction,
                text,
                p.pos as int,
                tx@,
            ),
            text == old(p).body@,
            tx0 == old(tx)@,
            section_at(Section::Transaction, text, old(p).pos as int, tx0) == members(
                Section::Transaction,
                text,
                start,
                tx0,
            ),
        decreases p.body@.len() - p.pos,
    {
        let ghost pos0 = p.pos as int;
        proof {
            lemma_key_at(text, pos0);
            lemma_colon_at(text, key_at(text, pos0).1);
            if let Some(key) = key_at(text, pos0).0 {
                lemma_member(
                    Section::Transaction,
                    text,
                    colon_at(text, key_at(text, pos0).1).1,
                    key,
                    tx@,
                );
            }
        }
        match p.next_key() {
            Some(key) => {
                if !p.expect_colon() {
                    return ;
                }
                if bytes_eq(key, "amount".as_bytes()) {
                    let v = number_or_skip(p);
                    if v.is_some() {
                        tx.amount = v;
                    }
                } else if bytes_eq(key, "installments".as_bytes()) {
                    let v = number_or_skip(p);
                    if v.is_some() {
                        tx.installments = v;
                    }
                } else if bytes_eq(key, "requested_at".as_bytes()) {
                    match string_or_skip(p) {
                        Some(v) => {
                            apply_iso(tx, v);
                        },
                        None => {},
                    }
                } else {
                    p.skip_value();
                }
            },
            None => {
                return ;
            },
        }
    }
}

/// Reads the customer section.
pub fn parse_customer_block<'a>(p: &mut Parser<'a>, tx: &mut ScannedTx<'a>)
    requires
        old(p).wf(),
    ensures
        final(tx)@ == section_at(
            Section::Customer,
            old(p).body@,
            old(p).pos as int,
            old(tx)@,
        ).0,
        final(p).moved_to(
            old(p).body@,
            section_at(Section::Customer, old(p).body@, old(p).pos as int, old(tx)@).1,
        ),
{
    proof {
        lemma_after_space(p.body@, p.pos as int);
    }
    p.skip_ws();
    if !p.at(OPEN_BRACE) {
        p.skip_value();
        return ;
    }
    p.advance(1);
    let ghost text = p.body@;
    let ghost start = p.pos as int;
    let ghost tx0 = tx@;
    loop
        invariant
            p.wf(),
            p.body@ == text,
            members(Section::Customer, text, start, tx0) == members(
                Section::Customer,
                text,
                p.pos as int,
                tx@,
            ),
            text == old(p).body@,
            tx0 == old(tx)@,
            section_at(Section::Customer, text, old(p).pos as int, tx0) == members(
                Section::Customer,
                text,
                start,
                tx0,
            ),
        decreases p.body@.len() - p.pos,
    {
        let ghost pos0 = p.pos as int;
        proof {
            lemma_key_at(text, pos0);
            lemma_colon_at(text, key_at(text, pos0).1);
            if let Some(key) = key_at(text, pos0).0 {
                lemma_member(
                    Section::Customer,
                    text,
                    colon_at(text, key_at(text, pos0).1).1,
                    key,
                    tx@,
                );
            }
        }
        match p.next_key() {
            Some(key) => {
                if !p.expect_colon() {
                    return ;
                }
                if bytes_eq(key, "avg_amount".as_bytes()) {
                    let v = number_or_skip(p);
                    if v.is_some() {
                        tx.customer_avg_amount = v;
                    }
                } else if bytes_eq(key, "tx_count_24h".as_bytes()) {
                    let v = number_or_skip(p);
                    if v.is_some() {
                        tx.tx_count_24h = v;
                    }
                } else if bytes_eq(key, "known_merchants".as_bytes()) {
                    parse_known_merchants(p, &mut tx.known_merchants);
                } else {
                    p.skip_value();
                }
            },
            None => {
                return ;
            },
        }
    }
}

/// Reads the merchant section.
pub fn parse_merchant_block<'a>(p: &mut Parser<'a>, tx: &mut ScannedTx<'a>)
    requires
        old(p).wf(),
    ensures
        final(tx)@ == section_at(
            Section::Merchant,
            old(p).body@,
            old(p).pos as int,
            old(tx)@,
        ).0,
        final(p).moved_to(
            old(p).body@,
            section_at(Section::Merchant, old(p).body@, old(p).pos as int, old(tx)@).1,
        ),
{
    proof {
        lemma_after_space(p.body@, p.pos as int);
    }
    p.skip_ws();
    if !p.at(OPEN_BRACE) {
        p.skip_value();
        return ;
    }
    p.advance(1);
    let ghost text = p.body@;
    let ghost start = p.pos as int;
    let ghost tx0 = tx@;
    loop
        invariant
            p.wf(),
            p.body@ == text,
            members(Section::Merchant, text, start, tx0) == members(
                Section::Merchant,
                text,
                p.pos as int,
                tx@,
            ),
            text == old(p).body@,
            tx0 == old(tx)@,
            section_at(Section::Merchant, text, old(p).pos as int, tx0) == members(
                Section::Merchant,
                text,
                start,
                tx0,
            ),
        decreases p.body@.len() - p.pos,
    {
        let ghost pos0 = p.pos as int;
        proof {
            lemma_key_at(text, pos0);
            lemma_colon_at(text, key_at(text, pos0).1);
            if let Some(key) = key_at(text, pos0).0 {
                lemma_member(
                    Section::Merchant,
                    text,
                    colon_at(text, key_at(text, pos0).1).1,
                    key,
                    tx@,
                );
            }
        }
        match p.next_key() {
            Some(key) => {
                if !p.expect_colon() {
                    return ;
                }
                if bytes_eq(key, "id".as_bytes()) {
                    match string_or_skip(p) {
                        Some(v) => {
                            tx.merchant_id = keep_id(v);
                        },
                        None => {},
                    }
                } else if bytes_eq(key, "mcc".as_bytes()) {
                    match p.parse_string_slice() {
                        Some(s) => {
                            tx.mcc = Mcc::Text(s);
                        },
                        None => match number_or_skip(p) {
                            Some(v) => {
                                tx.mcc = Mcc::Number(v);
                            },
                            None => {},
                        },
                    }
                } else if bytes_eq(key, "avg_amount".as_bytes()) {
                    let v = number_or_skip(p);
                    if v.is_some() {
                        tx.merchant_avg_amount = v;
                    }
                } else {
                    p.skip_value();
                }
            },
            None => {
                return ;
            },
        }
    }
}

/// Reads the terminal section.
pub fn parse_terminal_block<'a>(p: &mut Parser<'a>, tx: &mut ScannedTx<'a>)
    requires
        old(p).wf(),
    ensures
        final(tx)@ == section_at(
            Section::Terminal,
            old(p).body@,
            old(p).pos as int,
            old(tx)@,
        ).0,
        final(p).moved_to(
            old(p).body@,
            section_at(Section::Terminal, old(p).body@, old(p).pos as int, old(tx)@).1,
        ),
{
    proof {
        lemma_after_space(p.body@, p.pos as int);
    }
    p.skip_ws();
    if !p.at(OPEN_BRACE) {
        p.skip_value();
        return ;
    }
    p.advance(1);
    let ghost text = p.body@;
    let ghost start = p.pos as int;
    let ghost tx0 = tx@;
    loop
        invariant
            p.wf(),
            p.body@ == text,
            members(Section::Terminal, text, start, tx0) == members(
                Section::Terminal,
                text,
                p.pos as int,
                tx@,
            ),
            text == old(p).body@,
            tx0 == old(tx)@,
            section_at(Section::Terminal, text, old(p).pos as int, tx0) == members(
                Section::Terminal,
                text,
                start,
                tx0,
            ),
        decreases p.body@.len() - p.pos,
    {
        let ghost pos0 = p.pos as int;
        proof {
            lemma_key_at(text, pos0);
            lemma_colon_at(text, key_at(text, pos0).1);
            if let Some(key) = key_at(text, pos0).0 {
                lemma_member(
                    Section::Terminal,
                    text,
                    colon_at(text, key_at(text, pos0).1).1,
                    key,
                    tx@,
                );
            }
        }
        match p.next_key() {
            Some(key) => {
                if !p.expect_colon() {
                    return ;
                }
                if bytes_eq(key, "is_online".as_bytes()) {
                    match bool_or_skip(p) {
                        Some(v) => {
                            tx.is_online = v;
                        },
                        None => {},
                    }
                } else if bytes_eq(key, "card_present".as_bytes()) {
                    match bool_or_skip(p) {
                        Some(v) => {
                            tx.card_present = v;
                        },
                        None => {},
                    }
                } else if bytes_eq(key, "km_from_home".as_bytes()) {
                    let v = number_or_skip(p);
                    if v.is_some() {
                        tx.km_from_home = v;
                    }
                } else {
                    p.skip_value();
                }
            },
            None => {
                return ;
            },
        }
    }
}

/// Reads the last transaction, which may be null.
pub fn parse_last_tx_block<'a>(p: &mut Parser<'a>, tx: &mut ScannedTx<'a>)
    requires
        old(p).wf(),
    ensures
        final(tx)@ == section_at(
            Section::LastTransaction,
            old(p).body@,
            old(p).pos as int,
            old(tx)@,
        ).0,
        final(p).moved_to(
            old(p).body@,
            section_at(Section::LastTransaction, old(p).body@, old(p).pos as int, old(tx)@).1,
        ),
{
    proof {
        lemma_after_space(p.body@, p.pos as int);
    }
    p.skip_ws();
    if p.parse_null() {
        return ;
    }
    if !p.at(OPEN_BRACE) {
        p.skip_value();
        return ;
    }
    p.advance(1);
    let ghost text = p.body@;
    let ghost start = p.pos as int;
    let ghost tx0 = tx@;
    loop
        invariant
            p.wf(),
            p.body@ == text,
            members(Section::LastTransaction, text, start, tx0) == members(
                Section::LastTransaction,
                text,
                p.pos as int,
                tx@,
            ),
            text == old(p).body@,
            tx0 == old(tx)@,
            section_at(Section::LastTransaction, text, old(p).pos as int, tx0) == members(
                Section::LastTransaction,
                text,
                start,
                tx0,
            ),
        decreases p.body@.len() - p.pos,
    {
        let ghost pos0 = p.pos as int;
        proof {
            lemma_key_at(text, pos0);
            lemma_colon_at(text, key_at(text, pos0).1);
            if let Some(key) = key_at(text, pos0).0 {
                lemma_member(
                    Section::LastTransaction,
                    text,
                    colon_at(text, key_at(text, pos0).1).1,
                    key,
                    tx@,
                );
            }
        }
        match p.next_key() {
            Some(key) => {
                if !p.expect_colon() {
                    return ;
                }
                if bytes_eq(key, "timestamp".as_bytes()) {
                    match string_or_skip(p) {
                        Some(v) => {
                            match parse_iso_seconds(v) {
                                Some(seconds) => {
                                    tx.last_tx_seconds = Some(seconds);
                                },
                                None => {},
                            }
                        },
                        None => {},
                    }
                } else if bytes_eq(key, "km_from_current".as_bytes()) {
                    let v = number_or_skip(p);
                    if v.is_some() {
                        tx.km_from_last_tx = v;
                    }
                } else {
                    p.skip_value();
                }
            },
            None => {
                return ;
            },
        }
    }
}

/// Finds what a body says of a transaction.
pub fn parse_transaction<'a>(body: &'a [u8]) -> (r: ScannedTx<'a>)
    ensures
        r@ == scanned(body@),
        r.wf(),
{
    proof {
        lemma_scanned(body@);
    }
    let mut tx = ScannedTx::unread(body);
    if body.len() == 0 || body.len() > MAX_BODY {
        tx.parse_ok = false;
        return tx;
    }
    let ghost text = body@;
    let mut p = Parser::new(body);
    p.skip_ws();
    if !p.at(OPEN_BRACE) {
        tx.parse_ok = false;
        return tx;
    }
    p.advance(1);
    loop
        invariant
            p.wf(),
            p.body@ == text,
            scanned(text) == sections(text, p.pos as int, tx@),
            text == body@,
            in_range(scanned(text)),
        decreases p.body@.len() - p.pos,
    {
        proof {
            let next = key_at(text, p.pos as int).1;
            lemma_key_at(text, p.pos as int);
            lemma_colon_at(text, next);
            let value = colon_at(text, next).1;
            lemma_after_value(text, value);
            lemma_section_at(Section::Transaction, text, value, tx@);
            lemma_section_at(Section::Customer, text, value, tx@);
            lemma_section_at(Section::Merchant, text, value, tx@);
            lemma_section_at(Section::Terminal, text, value, tx@);
            lemma_section_at(Section::LastTransaction, text, value, tx@);
        }
        match p.next_key() {
            Some(key) => {
                if !p.expect_colon() {
                    tx.parse_ok = false;
                    return tx;
                }
                if bytes_eq(key, "transaction".as_bytes()) {
                    parse_transaction_block(&mut p, &mut tx);
                } else if bytes_eq(key, "customer".as_bytes()) {
                    parse_customer_block(&mut p, &mut tx);
                } else if bytes_eq(key, "merchant".as_bytes()) {
                    parse_merchant_block(&mut p, &mut tx);
                } else if bytes_eq(key, "terminal".as_bytes()) {
                    parse_terminal_block(&mut p, &mut tx);
                } else if bytes_eq(key, "last_transaction".as_bytes()) {
                    parse_last_tx_block(&mut p, &mut tx);
                } else {
                    p.skip_value();
                }
            },
            None => {
                tx.complete = true;
                return tx;
            },
        }
    }
}

/// The hour is on the clock, the day is on the calendar, and ids are kept within bounds.
pub open spec fn in_range(tx: TxText) -> bool {
    &&& 0 <= tx.hour_of_day <= 23
    &&& 0 <= tx.day_of_week < 7
    &&& tx.merchant_id.len() <= ID_BUF
    &&& tx.known_merchants.len() <= KNOWN_CAP
    &&& forall|k: int|
        0 <= k < tx.known_merchants.len() ==> (#[trigger] tx.known_merchants[k]).len() <= ID_BUF
    &&& is_literal(tx.amount)
    &&& is_literal(tx.installments)
    &&& is_literal(tx.customer_avg_amount)
    &&& is_literal(tx.merchant_avg_amount)
    &&& is_literal(tx.tx_count_24h)
    &&& is_literal(tx.km_from_home)
    &&& is_literal(tx.km_from_last_tx)
    &&& tx.mcc matches MccText::Number(v) ==> is_decimal(v)
}

/// What is there is a decimal literal.
pub open spec fn is_literal(v: Option<Seq<u8>>) -> bool {
    v matches Some(literal) ==> is_decimal(literal)
}

proof fn lemma_known_in_range(text: Seq<u8>, pos: int, known: Seq<Seq<u8>>)
    requires
        0 <= pos <= text.len(),
        known.len() <= KNOWN_CAP,
        forall|k: int| 0 <= k < known.len() ==> (#[trigger] known[k]).len() <= ID_BUF,
    ensures
        known_items(text, pos, known).0.len() <= KNOWN_CAP,
        forall|k: int|
            0 <= k < known_items(text, pos, known).0.len() ==> (#[trigger] known_items(
                text,
                pos,
                known,
            ).0[k]).len() <= ID_BUF,
    decreases text.len() - pos,
{
    lemma_after_space(text, pos);
    let item = after_space(text, pos);
    lemma_string_at(text, item);
    if byte_at(text, item) == Some(COMMA) {
        lemma_known_in_range(text, item + 1, known);
    } else if byte_at(text, item) == Some(QUOTE) {
        if let (Some(id), next) = string_at(text, item) {
            lemma_known_in_range(text, next, with_known(known, id));
        }
    }
}

/// Numbers are decimal literals, and times that can be read are in range.
proof fn lemma_fields_in_range(text: Seq<u8>, pos: int)
    requires
        0 <= pos <= text.len(),
    ensures
        is_literal(number_field(text, pos).0),
        mcc_field(text, pos).0 matches Some(MccText::Number(v)) ==> is_decimal(v),
{
    law_number_is_decimal(text, pos);
    lemma_string_at(text, pos);
    law_number_is_decimal(text, string_at(text, pos).1);
}

proof fn lemma_transaction_in_range(text: Seq<u8>, pos: int, key: Seq<u8>, tx: TxText)
    requires
        0 <= pos <= text.len(),
        in_range(tx),
    ensures
        in_range(transaction_member(text, pos, key, tx).0),
{
    lemma_fields_in_range(text, pos);
    let (v, next) = string_field(text, pos);
    if let Some(stamp) = v {
        lemma_hour_and_weekday(stamp);
    }
}

proof fn lemma_customer_in_range(text: Seq<u8>, pos: int, key: Seq<u8>, tx: TxText)
    requires
        0 <= pos <= text.len(),
        in_range(tx),
    ensures
        in_range(customer_member(text, pos, key, tx).0),
{
    lemma_fields_in_range(text, pos);
    lemma_after_space(text, pos);
    let first = after_space(text, pos);
    if byte_at(text, first) == Some(OPEN_BRACKET) {
        lemma_known_in_range(text, first + 1, tx.known_merchants);
    }
}

proof fn lemma_merchant_in_range(text: Seq<u8>, pos: int, key: Seq<u8>, tx: TxText)
    requires
        0 <= pos <= text.len(),
        in_range(tx),
    ensures
        in_range(merchant_member(text, pos, key, tx).0),
{
    lemma_fields_in_range(text, pos);
}

proof fn lemma_member_in_range(
    section: Section,
    text: Seq<u8>,
    pos: int,
    key: Seq<u8>,
    tx: TxText,
)
    requires
        0 <= pos <= text.len(),
        in_range(tx),
    ensures
        in_range(member(section, text, pos, key, tx).0),
{
    match section {
        Section::Transaction => lemma_transaction_in_range(text, pos, key, tx),
        Section::Customer => lemma_customer_in_range(text, pos, key, tx),
        Section::Merchant => lemma_merchant_in_range(text, pos, key, tx),
        Section::Terminal => lemma_fields_in_range(text, pos),
        Section::LastTransaction => lemma_fields_in_range(text, pos),
    }
}

proof fn lemma_members_in_range(section: Section, text: Seq<u8>, pos: int, tx: TxText)
    requires
        0 <= pos <= text.len(),
        in_range(tx),
    ensures
        in_range(members(section, text, pos, tx).0),
    decreases text.len() - pos,
{
    lemma_key_at(text, pos);
    if let (Some(key), next) = key_at(text, pos) {
        lemma_colon_at(text, next);
        if let (true, value) = colon_at(text, next) {
            lemma_member(section, text, value, key, tx);
            lemma_member_in_range(section, text, value, key, tx);
            let (tx2, rest) = member(section, text, value, key, tx);
            lemma_members_in_range(section, text, rest, tx2);
        }
    }
}

proof fn lemma_sections_in_range(text: Seq<u8>, pos: int, tx: TxText)
    requires
        0 <= pos <= text.len(),
        in_range(tx),
    ensures
        in_range(sections(text, pos, tx)),
    decreases text.len() - pos,
{
    lemma_key_at(text, pos);
    if let (Some(key), next) = key_at(text, pos) {
        lemma_colon_at(text, next);
        if let (true, value) = colon_at(text, next) {
            lemma_after_value(text, value);
            match section_named(key) {
                Some(section) => {
                    lemma_section_at(section, text, value, tx);
                    let first = after_space(text, value);
                    lemma_after_space(text, value);
                    if byte_at(text, first) == Some(OPEN_BRACE) {
                        lemma_members_in_range(section, text, first + 1, tx);
                    }
                    let (tx2, rest) = section_at(section, text, value, tx);
                    lemma_sections_in_range(text, rest, tx2);
                },
                None => {
                    lemma_sections_in_range(text, after_value(text, value), tx);
                },
            }
        }
    }
}

proof fn lemma_scanned(text: Seq<u8>)
    ensures
        in_range(scanned(text)),
{
    lemma_after_space(text, 0);
    let first = after_space(text, 0);
    if 0 < text.len() <= MAX_BODY && byte_at(text, first) == Some(OPEN_BRACE) {
        lemma_sections_in_range(text, first + 1, unread());
    }
}

/// A body that is accepted was read to the end.
pub proof fn law_accepted_is_complete(text: Seq<u8>)
    ensures
        scanned(text).parse_ok ==> scanned(text).complete,
{
    lemma_after_space(text, 0);
    let first = after_space(text, 0);
    if 0 < text.len() <= MAX_BODY && byte_at(text, first) == Some(OPEN_BRACE) {
        lemma_sections_final(text, first + 1, unread());
    }
}

/// A body that is empty, too long or no object is refused.
pub proof fn law_no_object_refused(text: Seq<u8>)
    requires
        text.len() == 0 || text.len() > MAX_BODY || byte_at(text, after_space(text, 0)) != Some(
            OPEN_BRACE,
        ),
    ensures
        !scanned(text).parse_ok,
{
}

/// What was refused once stays refused, whatever else a section says.
pub proof fn law_members_refusal_is_final(section: Section, text: Seq<u8>, pos: int, tx: TxText)
    requires
        0 <= pos <= text.len(),
    ensures
        members(section, text, pos, tx).0.parse_ok ==> tx.parse_ok,
    decreases text.len() - pos,
{
    lemma_key_at(text, pos);
    if let (Some(key), next) = key_at(text, pos) {
        lemma_colon_at(text, next);
        if let (true, value) = colon_at(text, next) {
            lemma_member(section, text, value, key, tx);
            let (tx2, rest) = member(section, text, value, key, tx);
            law_members_refusal_is_final(section, text, rest, tx2);
        }
    }
}

proof fn lemma_sections_final(text: Seq<u8>, pos: int, tx: TxText)
    requires
        0 <= pos <= text.len(),
    ensures
        sections(text, pos, tx).parse_ok ==> tx.parse_ok && sections(text, pos, tx).complete,
    decreases text.len() - pos,
{
    lemma_key_at(text, pos);
    if let (Some(key), next) = key_at(text, pos) {
        lemma_colon_at(text, next);
        if let (true, value) = colon_at(text, next) {
            lemma_after_value(text, value);
            match section_named(key) {
                Some(section) => {
                    lemma_section_at(section, text, value, tx);
                    let (tx2, rest) = section_at(section, text, value, tx);
                    let first = after_space(text, value);
                    lemma_after_space(text, value);
                    if byte_at(text, first) == Some(OPEN_BRACE) {
                        law_members_refusal_is_final(section, text, first + 1, tx);
                    }
                    lemma_sections_final(text, rest, tx2);
                },
                None => {
                    lemma_sections_final(text, after_value(text, value), tx);
                },
            }
        }
    }
}

impl<'a> ScannedTx<'a> {
    /// Hour and day are on the clock and the calendar, ids are within bounds, every number
    /// is a decimal literal, and only what was read to the end is accepted.
    pub open spec fn wf(&self) -> bool {
        in_range(self@) && (self.parse_ok ==> self.complete)
    }

    /// A transaction of which nothing has been read.
    fn unread(body: &'a [u8]) -> (r: Self)
        ensures
            r@ == unread(),
    {
        let none = &body[0..0];
        let r = ScannedTx {
            amount: None,
            installments: None,
            customer_avg_amount: None,
            merchant_avg_amount: None,
            tx_count_24h: None,
            km_from_home: None,
            km_from_last_tx: None,
            requested_at_seconds: 0,
            hour_of_day: 12,
            day_of_week: 3,
            mcc: Mcc::Text(none),
            is_online: false,
            card_present: true,
            merchant_id: none,
            known_merchants: Vec::new(),
            last_tx_seconds: None,
            parse_ok: true,
            complete: false,
        };
        assert(contents(r.known_merchants@) =~= Seq::empty());
        assert(none@ =~= Seq::empty());
        r
    }
}

} // verus!
