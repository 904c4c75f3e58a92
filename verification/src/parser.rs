//! Reading a transaction out of the body of a request.
//!
//! The body is a JSON text. It is not parsed as a whole: each field is looked up by its quoted
//! name, within the object it belongs to.

use vstd::prelude::*;
use vstd::string::StringSliceAdditionalSpecFns;
use vstd::utf8::encode_utf8;
use crate::ivf::DIM;
use crate::scan::{
    find_subseq,
    first_occurrence,
    found_at,
    has_prefix,
    law_first_occurrences,
    lemma_run_end,
    run_end,
    same_bytes,
    skip_run,
    starts_with,
    ByteSet,
};
use crate::timestamp::{
    hour_of,
    is_readable,
    is_readable_timestamp,
    lemma_minutes_bound,
    minutes_of,
    parse_iso,
    weekday_of,
};
use crate::vectorizer::{
    features,
    features_of,
    is_named,
    minutes_apart,
    minutes_between,
    risk_of,
    Count,
    Facts,
    Feature,
    LastFacts,
    MccTable,
    Payload,
};

verus! {

/// Where a reader of an object stands: how many braces are open, whether it is inside of a quoted
/// string, and whether a backslash came just before.
pub struct Nesting {
    /// Open braces.
    pub depth: int,
    /// Inside of a quoted string.
    pub in_str: bool,
    /// Just after a backslash inside of a quoted string.
    pub esc: bool,
}

/// What reading one byte changes.
pub open spec fn nest(s: Nesting, c: u8) -> Nesting {
    if s.in_str {
        if s.esc {
            Nesting { esc: false, ..s }
        } else if c == 92 {
            Nesting { esc: true, ..s }
        } else if c == 34 {
            Nesting { in_str: false, ..s }
        } else {
            s
        }
    } else if c == 34 {
        Nesting { in_str: true, ..s }
    } else if c == 123 {
        Nesting { depth: s.depth + 1, ..s }
    } else if c == 125 {
        Nesting { depth: s.depth - 1, ..s }
    } else {
        s
    }
}

/// Where the reader stands after the bytes from `start` up to `end`.
pub open spec fn nesting(buf: Seq<u8>, start: int, end: int) -> Nesting
    decreases end - start,
{
    if end <= start {
        Nesting { depth: 0, in_str: false, esc: false }
    } else {
        nest(nesting(buf, start, end - 1), buf[end - 1])
    }
}

/// The object that starts at `start` ends before `end`: there the last open brace is closed.
pub open spec fn closes_at(buf: Seq<u8>, start: int, end: int) -> bool {
    &&& 0 <= start < end <= buf.len()
    &&& nesting(buf, start, end).depth == 0
    &&& forall|j: int| start < j < end ==> (#[trigger] nesting(buf, start, j)).depth > 0
}

/// Where the object that starts at `start` ends, if it does.
pub open spec fn object_end(buf: Seq<u8>, start: int) -> Option<int> {
    if exists|e: int| closes_at(buf, start, e) {
        Some(choose|e: int| closes_at(buf, start, e))
    } else {
        None
    }
}

/// An object ends in one place only.
pub proof fn lemma_object_end(buf: Seq<u8>, start: int, e: int)
    requires
        closes_at(buf, start, e),
    ensures
        object_end(buf, start) == Some(e),
{
    let r = choose|r: int| closes_at(buf, start, r);
    assert(closes_at(buf, start, r));
    if r < e {
        assert(nesting(buf, start, r).depth > 0);
    } else if e < r {
        assert(nesting(buf, start, e).depth > 0);
    }
}

/// Where the object named `key` starts and ends: `key` stands first, then blanks and colons, then
/// the object.
pub open spec fn object_span(buf: Seq<u8>, key: Seq<u8>) -> Option<(int, int)> {
    match first_occurrence(buf, key) {
        None => None,
        Some(p) => {
            let start = run_end(buf, p + key.len(), ByteSet::BlankOrColon);
            if start < buf.len() && buf[start] == 123 {
                match object_end(buf, start) {
                    None => None,
                    Some(end) => Some((start, end)),
                }
            } else {
                None
            }
        },
    }
}

/// The bytes of the object named `key`.
pub open spec fn object(buf: Seq<u8>, key: Seq<u8>) -> Option<Seq<u8>> {
    match object_span(buf, key) {
        None => None,
        Some((start, end)) => Some(buf.subrange(start, end)),
    }
}

/// A located object lies in the buffer.
pub open spec fn is_span(span: Option<(usize, usize)>, buf: Seq<u8>, key: Seq<u8>) -> bool {
    match span {
        None => object_span(buf, key) is None,
        Some((s, e)) => object_span(buf, key) == Some((s as int, e as int)) && s < e <= buf.len(),
    }
}

/// Finds the end of the object that starts at `start`.
fn close_object(buf: &[u8], start: usize) -> (r: Option<usize>)
    requires
        start < buf@.len(),
        buf@[start as int] == 123,
    ensures
        match r {
            None => object_end(buf@, start as int) is None,
            Some(e) => object_end(buf@, start as int) == Some(e as int) && start < e <= buf@.len(),
        },
{
    let mut i: usize = start;
    let mut depth: usize = 0;
    let mut in_str: bool = false;
    let mut esc: bool = false;
    while i < buf.len()
        invariant
            start <= i <= buf@.len(),
            start < buf@.len(),
            buf@[start as int] == 123,
            nesting(buf@, start as int, i as int) == (Nesting { depth: depth as int, in_str, esc }),
            depth <= i - start,
            start < i ==> depth > 0,
            forall|j: int|
                start < j <= i ==> (#[trigger] nesting(buf@, start as int, j)).depth > 0,
        decreases buf@.len() - i,
    {
        let c: u8 = buf[i];
        if in_str {
            if esc {
                esc = false;
            } else if c == 92 {
                esc = true;
            } else if c == 34 {
                in_str = false;
            }
        } else if c == 34 {
            in_str = true;
        } else if c == 123 {
            depth += 1;
        } else if c == 125 {
            depth -= 1;
            if depth == 0 {
                proof {
                    assert(nesting(buf@, start as int, i + 1).depth == 0);
                    lemma_object_end(buf@, start as int, i + 1);
                }
                return Some(i + 1);
            }
        }
        i += 1;
    }
    proof {
        if exists|e: int| closes_at(buf@, start as int, e) {
            let e = choose|e: int| closes_at(buf@, start as int, e);
            assert(nesting(buf@, start as int, e).depth > 0);
        }
    }
    None
}

/// Locates the object named `key`.
pub fn locate_object(buf: &[u8], key: &[u8]) -> (span: Option<(usize, usize)>)
    ensures
        is_span(span, buf@, key@),
{
    match find_subseq(buf, key) {
        None => None,
        Some(pos) => {
            let start: usize = skip_run(buf, pos + key.len(), ByteSet::BlankOrColon);
            if start >= buf.len() || buf[start] != 123 {
                return None;
            }
            match close_object(buf, start) {
                None => None,
                Some(end) => Some((start, end)),
            }
        },
    }
}

/// Locates the object named `key`, which may be `null` instead.
pub fn locate_object_or_null(buf: &[u8], key: &[u8]) -> (span: Option<(usize, usize)>)
    ensures
        is_span(span, buf@, key@),
{
    match find_subseq(buf, key) {
        None => None,
        Some(pos) => {
            let start: usize = skip_run(buf, pos + key.len(), ByteSet::BlankOrColon);
            if start >= buf.len() || buf[start] == 110 {
                return None;
            }
            locate_object(buf, key)
        },
    }
}

/// A located object starts with an opening brace and ends with a closing one.
pub proof fn law_objects_are_braced(buf: Seq<u8>, key: Seq<u8>)
    ensures
        object(buf, key) matches Some(o) ==> o.len() >= 2 && o[0] == 123 && o[o.len() - 1] == 125,
{
    if let Some((start, end)) = object_span(buf, key) {
        assert(closes_at(buf, start, end));
        assert(nesting(buf, start, start + 1) == nest(nesting(buf, start, start), buf[start]));
        assert(nesting(buf, start, end) == nest(nesting(buf, start, end - 1), buf[end - 1]));
    }
}

/// Where the value of a field starts, after the next colon and blanks.
pub open spec fn value_start(buf: Seq<u8>, from: int) -> Option<int> {
    let colon = run_end(buf, from, ByteSet::NotColon);
    let value = run_end(buf, colon + 1, ByteSet::Blank);
    if colon < buf.len() && value < buf.len() {
        Some(value)
    } else {
        None
    }
}

/// Finds where the value of a field starts.
pub fn skip_to_value(buf: &[u8], from: usize) -> (r: Option<usize>)
    requires
        from <= buf@.len(),
    ensures
        match r {
            None => value_start(buf@, from as int) is None,
            Some(i) => value_start(buf@, from as int) == Some(i as int) && i < buf@.len(),
        },
{
    let colon: usize = skip_run(buf, from, ByteSet::NotColon);
    if colon >= buf.len() {
        return None;
    }
    let value: usize = skip_run(buf, colon + 1, ByteSet::Blank);
    if value >= buf.len() {
        None
    } else {
        Some(value)
    }
}

/// Where the value of the field named `key` starts.
pub open spec fn field_start(buf: Seq<u8>, key: Seq<u8>) -> Option<int> {
    match first_occurrence(buf, key) {
        None => None,
        Some(p) => value_start(buf, p + key.len()),
    }
}

/// Finds where the value of the field named `key` starts.
fn find_field(buf: &[u8], key: &[u8]) -> (r: Option<usize>)
    ensures
        match r {
            None => field_start(buf@, key@) is None,
            Some(i) => field_start(buf@, key@) == Some(i as int) && i < buf@.len(),
        },
{
    match find_subseq(buf, key) {
        None => None,
        Some(pos) => skip_to_value(buf, pos + key.len()),
    }
}

/// Length of the number that stands at `from`.
pub fn number_bytes(buf: &[u8], from: usize) -> (n: usize)
    requires
        from <= buf@.len(),
    ensures
        from + n == run_end(buf@, from as int, ByteSet::Number),
        from + n <= buf@.len() <= usize::MAX,
{
    assert(buf.len() == buf@.len());
    skip_run(buf, from, ByteSet::Number) - from
}

/// The digits, signs, points and exponent marks that make up the number named `key`.
pub open spec fn number_field(buf: Seq<u8>, key: Seq<u8>) -> Option<Seq<u8>> {
    match field_start(buf, key) {
        None => None,
        Some(v) => Some(buf.subrange(v, run_end(buf, v, ByteSet::Number))),
    }
}

/// `token` is made of what numbers are made of.
pub open spec fn is_number_token(token: Seq<u8>) -> bool {
    forall|i: int| 0 <= i < token.len() ==> ByteSet::Number.holds(#[trigger] token[i])
}

/// Reads the number named `key`, as it is written.
pub fn read_number<'a>(buf: &'a [u8], key: &[u8]) -> (r: Option<&'a [u8]>)
    ensures
        match r {
            None => number_field(buf@, key@) is None,
            Some(t) => number_field(buf@, key@) == Some(t@) && is_number_token(t@),
        },
{
    match find_field(buf, key) {
        None => None,
        Some(v) => {
            let n: usize = number_bytes(buf, v);
            proof {
                lemma_run_end(buf@, v as int, ByteSet::Number);
            }
            Some(&buf[v..v + n])
        },
    }
}

/// What stands between the quotes of the string named `key`.
pub open spec fn text_field(buf: Seq<u8>, key: Seq<u8>) -> Option<Seq<u8>> {
    match field_start(buf, key) {
        None => None,
        Some(v) => if buf[v] == 34 {
            Some(buf.subrange(v + 1, run_end(buf, v + 1, ByteSet::NotQuote)))
        } else {
            None
        },
    }
}

/// Reads the string named `key`, up to the next quote or the end.
pub fn read_string<'a>(buf: &'a [u8], key: &[u8]) -> (r: Option<&'a [u8]>)
    ensures
        match r {
            None => text_field(buf@, key@) is None,
            Some(t) => text_field(buf@, key@) == Some(t@),
        },
{
    match find_field(buf, key) {
        None => None,
        Some(v) => {
            if buf[v] != 34 {
                return None;
            }
            let end: usize = skip_run(buf, v + 1, ByteSet::NotQuote);
            Some(&buf[v + 1..end])
        },
    }
}

/// The truth value named `key`.
pub open spec fn flag_field(buf: Seq<u8>, key: Seq<u8>) -> Option<bool> {
    match field_start(buf, key) {
        None => None,
        Some(v) => {
            let rest = buf.subrange(v, buf.len() as int);
            if has_prefix(rest, "true".spec_bytes()) {
                Some(true)
            } else if has_prefix(rest, "false".spec_bytes()) {
                Some(false)
            } else {
                None
            }
        },
    }
}

/// Reads the truth value named `key`.
pub fn read_bool(buf: &[u8], key: &[u8]) -> (r: Option<bool>)
    ensures
        r == flag_field(buf@, key@),
{
    match find_field(buf, key) {
        None => None,
        Some(v) => {
            let rest: &[u8] = &buf[v..buf.len()];
            if starts_with(rest, "true".as_bytes()) {
                Some(true)
            } else if starts_with(rest, "false".as_bytes()) {
                Some(false)
            } else {
                None
            }
        },
    }
}

/// The quoted strings from `i` up to the next closing bracket outside of quotes.
pub open spec fn quoted_strings(buf: Seq<u8>, i: int) -> Seq<Seq<u8>>
    decreases buf.len() + 1 - i,
{
    if i < 0 || i >= buf.len() || buf[i] == 93 {
        Seq::empty()
    } else if buf[i] == 34 {
        let e = run_end(buf, i + 1, ByteSet::NotQuote);
        proof {
            lemma_run_end(buf, i + 1, ByteSet::NotQuote);
        }
        seq![buf.subrange(i + 1, e)] + quoted_strings(buf, e + 1)
    } else {
        quoted_strings(buf, i + 1)
    }
}

/// The strings of the array named `key`: `key` stands first, then spaces, tabs and colons, then
/// the array.
pub open spec fn array_field(buf: Seq<u8>, key: Seq<u8>) -> Seq<Seq<u8>> {
    match first_occurrence(buf, key) {
        None => Seq::empty(),
        Some(p) => {
            let i = run_end(buf, p + key.len(), ByteSet::GapOrColon);
            if i < buf.len() && buf[i] == 91 {
                quoted_strings(buf, i + 1)
            } else {
                Seq::empty()
            }
        },
    }
}

/// Looks for a string in the array named `key`.
pub fn array_has(buf: &[u8], key: &[u8], needle: &[u8]) -> (b: bool)
    ensures
        b == array_field(buf@, key@).contains(needle@),
{
    let pos: usize = match find_subseq(buf, key) {
        None => return false,
        Some(pos) => pos,
    };
    let open: usize = skip_run(buf, pos + key.len(), ByteSet::GapOrColon);
    if open >= buf.len() || buf[open] != 91 {
        return false;
    }
    let ghost all = quoted_strings(buf@, open + 1);
    let mut i: usize = open + 1;
    while i < buf.len() && buf[i] != 93
        invariant
            i <= buf@.len(),
            all.contains(needle@) == quoted_strings(buf@, i as int).contains(needle@),
            all == array_field(buf@, key@),
        decreases buf@.len() - i,
    {
        if buf[i] == 34 {
            let e: usize = skip_run(buf, i + 1, ByteSet::NotQuote);
            let ghost first = buf@.subrange(i + 1, e as int);
            let ghost others = quoted_strings(buf@, e + 1);
            assert(quoted_strings(buf@, i as int) == seq![first] + others);
            if same_bytes(&buf[i + 1..e], needle) {
                assert((seq![first] + others)[0] == needle@);
                return true;
            }
            proof {
                lemma_contains_either(first, others, needle@);
            }
            if e == buf.len() {
                return false;
            }
            i = e + 1;
        } else {
            i += 1;
        }
    }
    false
}

/// A sequence holds its first element and what the rest of it holds.
proof fn lemma_contains_either(first: Seq<u8>, others: Seq<Seq<u8>>, x: Seq<u8>)
    ensures
        (seq![first] + others).contains(x) <==> (first == x || others.contains(x)),
{
    let all = seq![first] + others;
    if all.contains(x) {
        let i = choose|i: int| 0 <= i < all.len() && all[i] == x;
        if i > 0 {
            assert(others[i - 1] == x);
        }
    }
    if first == x {
        assert(all[0] == x);
    }
    if others.contains(x) {
        let i = choose|i: int| 0 <= i < others.len() && others[i] == x;
        assert(all[i + 1] == x);
    }
}

/// Name of the field `transaction`, as it stands in a body.
pub const KEY_TRANSACTION: &'static str = "\"transaction\"";

/// Name of the field `customer`, as it stands in a body.
pub const KEY_CUSTOMER: &'static str = "\"customer\"";

/// Name of the field `merchant`, as it stands in a body.
pub const KEY_MERCHANT: &'static str = "\"merchant\"";

/// Name of the field `terminal`, as it stands in a body.
pub const KEY_TERMINAL: &'static str = "\"terminal\"";

/// Name of the field `last_transaction`, as it stands in a body.
pub const KEY_LAST_TRANSACTION: &'static str = "\"last_transaction\"";

/// Name of the field `amount`, as it stands in a body.
pub const KEY_AMOUNT: &'static str = "\"amount\"";

/// Name of the field `installments`, as it stands in a body.
pub const KEY_INSTALLMENTS: &'static str = "\"installments\"";

/// Name of the field `requested_at`, as it stands in a body.
pub const KEY_REQUESTED_AT: &'static str = "\"requested_at\"";

/// Name of the field `avg_amount`, as it stands in a body.
pub const KEY_AVG_AMOUNT: &'static str = "\"avg_amount\"";

/// Name of the field `tx_count_24h`, as it stands in a body.
pub const KEY_TX_COUNT_24H: &'static str = "\"tx_count_24h\"";

/// Name of the field `id`, as it stands in a body.
pub const KEY_ID: &'static str = "\"id\"";

/// Name of the field `known_merchants`, as it stands in a body.
pub const KEY_KNOWN_MERCHANTS: &'static str = "\"known_merchants\"";

/// Name of the field `mcc`, as it stands in a body.
pub const KEY_MCC: &'static str = "\"mcc\"";

/// Name of the field `is_online`, as it stands in a body.
pub const KEY_IS_ONLINE: &'static str = "\"is_online\"";

/// Name of the field `card_present`, as it stands in a body.
pub const KEY_CARD_PRESENT: &'static str = "\"card_present\"";

/// Name of the field `km_from_home`, as it stands in a body.
pub const KEY_KM_FROM_HOME: &'static str = "\"km_from_home\"";

/// Name of the field `timestamp`, as it stands in a body.
pub const KEY_TIMESTAMP: &'static str = "\"timestamp\"";

/// Name of the field `km_from_current`, as it stands in a body.
pub const KEY_KM_FROM_CURRENT: &'static str = "\"km_from_current\"";

/// What a body says of the previous transaction.
#[derive(Clone, Copy)]
pub enum LastFields<B> {
    /// There is none.
    Absent,
    /// There is one, without its timestamp or its distance.
    Incomplete,
    /// There is one.
    Found { timestamp: B, km_from_current: B },
}

/// What a body says of a transaction. Numbers and strings are kept as they are written.
#[derive(Clone, Copy)]
pub struct Fields<B> {
    /// Amount of the transaction.
    pub amount: B,
    /// Number of installments.
    pub installments: B,
    /// Timestamp of the transaction.
    pub requested_at: B,
    /// Customer's average amount.
    pub avg_amount: B,
    /// Customer's transactions within a day.
    pub tx_count_24h: B,
    /// The merchant is among those that the customer has dealt with.
    pub known_merchant: bool,
    /// Merchant's category code.
    pub mcc: B,
    /// Merchant's average amount.
    pub merchant_avg_amount: B,
    /// The terminal is online.
    pub is_online: bool,
    /// The card is present.
    pub card_present: bool,
    /// Distance from the customer's home.
    pub km_from_home: B,
    /// The previous transaction.
    pub last: LastFields<B>,
}

impl<'a> View for LastFields<&'a [u8]> {
    type V = LastFields<Seq<u8>>;

    open spec fn view(&self) -> LastFields<Seq<u8>> {
        match *self {
            LastFields::Absent => LastFields::Absent,
            LastFields::Incomplete => LastFields::Incomplete,
            LastFields::Found { timestamp, km_from_current } => LastFields::Found {
                timestamp: timestamp@,
                km_from_current: km_from_current@,
            },
        }
    }
}

impl<'a> View for Fields<&'a [u8]> {
    type V = Fields<Seq<u8>>;

    open spec fn view(&self) -> Fields<Seq<u8>> {
        Fields {
            amount: self.amount@,
            installments: self.installments@,
            requested_at: self.requested_at@,
            avg_amount: self.avg_amount@,
            tx_count_24h: self.tx_count_24h@,
            known_merchant: self.known_merchant,
            mcc: self.mcc@,
            merchant_avg_amount: self.merchant_avg_amount@,
            is_online: self.is_online,
            card_present: self.card_present,
            km_from_home: self.km_from_home@,
            last: self.last@,
        }
    }
}

/// What `body` says of the previous transaction.
pub open spec fn last_fields_of(body: Seq<u8>) -> LastFields<Seq<u8>> {
    match object(body, KEY_LAST_TRANSACTION.spec_bytes()) {
        None => LastFields::Absent,
        Some(last) => match (
            text_field(last, KEY_TIMESTAMP.spec_bytes()),
            number_field(last, KEY_KM_FROM_CURRENT.spec_bytes()),
        ) {
            (Some(timestamp), Some(km_from_current)) => LastFields::Found {
                timestamp,
                km_from_current,
            },
            _ => LastFields::Incomplete,
        },
    }
}

/// What the four objects of a body say.
pub open spec fn fields_in(
    tx: Seq<u8>,
    cust: Seq<u8>,
    merch: Seq<u8>,
    term: Seq<u8>,
    last: LastFields<Seq<u8>>,
) -> Option<Fields<Seq<u8>>> {
    let amount = number_field(tx, KEY_AMOUNT.spec_bytes());
    let installments = number_field(tx, KEY_INSTALLMENTS.spec_bytes());
    let requested_at = text_field(tx, KEY_REQUESTED_AT.spec_bytes());
    let avg_amount = number_field(cust, KEY_AVG_AMOUNT.spec_bytes());
    let tx_count_24h = number_field(cust, KEY_TX_COUNT_24H.spec_bytes());
    let known_merchants = array_field(cust, KEY_KNOWN_MERCHANTS.spec_bytes());
    let id = text_field(merch, KEY_ID.spec_bytes());
    let mcc = text_field(merch, KEY_MCC.spec_bytes());
    let merchant_avg_amount = number_field(merch, KEY_AVG_AMOUNT.spec_bytes());
    let is_online = flag_field(term, KEY_IS_ONLINE.spec_bytes());
    let card_present = flag_field(term, KEY_CARD_PRESENT.spec_bytes());
    let km_from_home = number_field(term, KEY_KM_FROM_HOME.spec_bytes());
    if amount is Some && installments is Some && requested_at is Some && avg_amount is Some
        && tx_count_24h is Some && id is Some && mcc is Some && merchant_avg_amount is Some
        && is_online is Some && card_present is Some && km_from_home is Some {
        Some(
            Fields {
                amount: amount->0,
                installments: installments->0,
                requested_at: requested_at->0,
                avg_amount: avg_amount->0,
                tx_count_24h: tx_count_24h->0,
                known_merchant: known_merchants.contains(id->0),
                mcc: mcc->0,
                merchant_avg_amount: merchant_avg_amount->0,
                is_online: is_online->0,
                card_present: card_present->0,
                km_from_home: km_from_home->0,
                last,
            },
        )
    } else {
        None
    }
}

/// What `body` says of a transaction, or `None` where a field is missing.
pub open spec fn fields_of(body: Seq<u8>) -> Option<Fields<Seq<u8>>> {
    match (
        object(body, KEY_TRANSACTION.spec_bytes()),
        object(body, KEY_CUSTOMER.spec_bytes()),
        object(body, KEY_MERCHANT.spec_bytes()),
        object(body, KEY_TERMINAL.spec_bytes()),
    ) {
        (Some(tx), Some(cust), Some(merch), Some(term)) => fields_in(
            tx,
            cust,
            merch,
            term,
            last_fields_of(body),
        ),
        _ => None,
    }
}

/// Cuts the object named `key` out of the body.
fn cut_object<'a>(body: &'a [u8], key: &[u8]) -> (r: Option<&'a [u8]>)
    ensures
        match r {
            None => object(body@, key@) is None,
            Some(o) => object(body@, key@) == Some(o@),
        },
{
    match locate_object(body, key) {
        None => None,
        Some((s, e)) => Some(&body[s..e]),
    }
}

/// The numbers of these fields are made of what numbers are made of.
pub open spec fn has_number_tokens(f: Fields<Seq<u8>>) -> bool {
    &&& is_number_token(f.amount)
    &&& is_number_token(f.installments)
    &&& is_number_token(f.avg_amount)
    &&& is_number_token(f.tx_count_24h)
    &&& is_number_token(f.merchant_avg_amount)
    &&& is_number_token(f.km_from_home)
    &&& f.last matches LastFields::Found { km_from_current, .. } ==> is_number_token(
        km_from_current,
    )
}

/// Reads what a body says of the previous transaction.
pub fn read_last_fields<'a>(body: &'a [u8]) -> (r: LastFields<&'a [u8]>)
    ensures
        r@ == last_fields_of(body@),
        r matches LastFields::Found { km_from_current, .. } ==> is_number_token(km_from_current@),
{
    match locate_object_or_null(body, KEY_LAST_TRANSACTION.as_bytes()) {
        None => LastFields::Absent,
        Some((s, e)) => {
            let last: &'a [u8] = &body[s..e];
            match (
                read_string(last, KEY_TIMESTAMP.as_bytes()),
                read_number(last, KEY_KM_FROM_CURRENT.as_bytes()),
            ) {
                (Some(timestamp), Some(km_from_current)) => LastFields::Found {
                    timestamp,
                    km_from_current,
                },
                _ => LastFields::Incomplete,
            }
        },
    }
}

/// Reads what a body says of a transaction.
pub fn read_fields<'a>(body: &'a [u8]) -> (r: Option<Fields<&'a [u8]>>)
    ensures
        match r {
            None => fields_of(body@) is None,
            Some(f) => fields_of(body@) == Some(f@) && has_number_tokens(f@),
        },
{
    let tx: &'a [u8] = cut_object(body, KEY_TRANSACTION.as_bytes())?;
    let cust: &'a [u8] = cut_object(body, KEY_CUSTOMER.as_bytes())?;
    let merch: &'a [u8] = cut_object(body, KEY_MERCHANT.as_bytes())?;
    let term: &'a [u8] = cut_object(body, KEY_TERMINAL.as_bytes())?;
    let last: LastFields<&'a [u8]> = read_last_fields(body);

    let amount: &'a [u8] = read_number(tx, KEY_AMOUNT.as_bytes())?;
    let installments: &'a [u8] = read_number(tx, KEY_INSTALLMENTS.as_bytes())?;
    let requested_at: &'a [u8] = read_string(tx, KEY_REQUESTED_AT.as_bytes())?;

    let avg_amount: &'a [u8] = read_number(cust, KEY_AVG_AMOUNT.as_bytes())?;
    let tx_count_24h: &'a [u8] = read_number(cust, KEY_TX_COUNT_24H.as_bytes())?;
    let merchant_id: &'a [u8] = read_string(merch, KEY_ID.as_bytes())?;
    let known_merchant: bool = array_has(cust, KEY_KNOWN_MERCHANTS.as_bytes(), merchant_id);

    let mcc: &'a [u8] = read_string(merch, KEY_MCC.as_bytes())?;
    let merchant_avg_amount: &'a [u8] = read_number(merch, KEY_AVG_AMOUNT.as_bytes())?;

    let is_online: bool = read_bool(term, KEY_IS_ONLINE.as_bytes())?;
    let card_present: bool = read_bool(term, KEY_CARD_PRESENT.as_bytes())?;
    let km_from_home: &'a [u8] = read_number(term, KEY_KM_FROM_HOME.as_bytes())?;

    Some(
        Fields {
            amount,
            installments,
            requested_at,
            avg_amount,
            tx_count_24h,
            known_merchant,
            mcc,
            merchant_avg_amount,
            is_online,
            card_present,
            km_from_home,
            last,
        },
    )
}

/// What the numbers of a body come to; `None` where one cannot be read as a number.
#[derive(Clone, Copy)]
pub struct Numbers<N> {
    /// Amount of the transaction.
    pub amount: Option<N>,
    /// Number of installments.
    pub installments: Option<N>,
    /// Customer's average amount.
    pub avg_amount: Option<N>,
    /// Customer's transactions within a day.
    pub tx_count_24h: Option<N>,
    /// Merchant's average amount.
    pub merchant_avg_amount: Option<N>,
    /// Distance from the customer's home.
    pub km_from_home: Option<N>,
    /// Distance from the previous transaction; of no account where there is none.
    pub km_from_current: Option<N>,
}

impl<N> Numbers<N> {
    /// The numbers that every transaction has can be read.
    pub open spec fn are_present(&self) -> bool {
        &&& self.amount is Some
        &&& self.installments is Some
        &&& self.avg_amount is Some
        &&& self.tx_count_24h is Some
        &&& self.merchant_avg_amount is Some
        &&& self.km_from_home is Some
    }
}

/// Timestamps can be read wherever they come to matter: that of the transaction once its numbers
/// are there, that of the previous one once its distance is there too.
pub open spec fn is_scorable<N>(f: Fields<Seq<u8>>, n: Numbers<N>) -> bool {
    n.are_present() ==> {
        &&& is_readable(f.requested_at)
        &&& f.last matches LastFields::Found { timestamp, .. } ==> n.km_from_current is Some
            ==> is_readable(timestamp)
    }
}

/// What the features of a body depend on, or `None` where something is missing.
pub open spec fn facts_of<N>(f: Fields<Seq<u8>>, n: Numbers<N>) -> Option<Facts<N>> {
    let last: Option<Option<LastFacts<N>>> = match f.last {
        LastFields::Absent => Some(None),
        LastFields::Incomplete => None,
        LastFields::Found { timestamp, .. } => match n.km_from_current {
            None => None,
            Some(km) => Some(
                Some(
                    LastFacts {
                        minutes: minutes_between(
                            minutes_of(f.requested_at),
                            minutes_of(timestamp),
                        ) as u64,
                        km,
                    },
                ),
            ),
        },
    };
    if n.are_present() && last is Some {
        Some(
            Facts {
                amount: n.amount->0,
                installments: Count::Given(n.installments->0),
                avg_amount: n.avg_amount->0,
                hour: hour_of(f.requested_at) as u8,
                weekday: weekday_of(f.requested_at) as u8,
                last: last->0,
                km_from_home: n.km_from_home->0,
                tx_count_24h: Count::Given(n.tx_count_24h->0),
                is_online: f.is_online,
                card_present: f.card_present,
                known_merchant: f.known_merchant,
                merchant_avg_amount: n.merchant_avg_amount->0,
            },
        )
    } else {
        None
    }
}

/// `v` is what comes of the fields `f` and the numbers `n`: nothing where something is missing,
/// and otherwise the features.
pub open spec fn is_vector_of<N, R>(
    v: Option<[Feature<N, R>; DIM]>,
    f: Fields<Seq<u8>>,
    n: Numbers<N>,
    table: Map<Seq<char>, R>,
) -> bool {
    match facts_of(f, n) {
        None => v is None,
        Some(facts) => v is Some && v->0@ == features_of(facts, risk_of(table, f.mcc)),
    }
}

/// Tests that the timestamps can be read wherever they come to matter.
pub fn can_score<N: Copy>(f: &Fields<&[u8]>, n: &Numbers<N>) -> (ok: bool)
    ensures
        ok == is_scorable(f@, *n),
{
    if n.amount.is_none() || n.installments.is_none() || n.avg_amount.is_none()
        || n.tx_count_24h.is_none() || n.merchant_avg_amount.is_none()
        || n.km_from_home.is_none() {
        return true;
    }
    if !is_readable_timestamp(f.requested_at) {
        return false;
    }
    match f.last {
        LastFields::Found { timestamp, .. } => n.km_from_current.is_none()
            || is_readable_timestamp(timestamp),
        _ => true,
    }
}

/// The features of a transaction, from what its body says and what its numbers come to.
pub fn vectorize_fields<N: Copy, R: Copy>(
    f: &Fields<&[u8]>,
    n: &Numbers<N>,
    mcc: &MccTable<R>,
) -> (v: Option<[Feature<N, R>; DIM]>)
    requires
        is_scorable(f@, *n),
        mcc.wf(),
    ensures
        is_vector_of(v, f@, *n, mcc@),
{
    let amount: N = n.amount?;
    let installments: N = n.installments?;
    let avg_amount: N = n.avg_amount?;
    let tx_count_24h: N = n.tx_count_24h?;
    let merchant_avg_amount: N = n.merchant_avg_amount?;
    let km_from_home: N = n.km_from_home?;

    let (hour, weekday, at) = parse_iso(f.requested_at);
    let last: Option<LastFacts<N>> = match f.last {
        LastFields::Absent => None,
        LastFields::Incomplete => return None,
        LastFields::Found { timestamp, .. } => {
            let km: N = n.km_from_current?;
            let (_, _, before) = parse_iso(timestamp);
            proof {
                lemma_minutes_bound(f.requested_at@);
                lemma_minutes_bound(timestamp@);
            }
            Some(LastFacts { minutes: minutes_apart(at, before), km })
        },
    };
    let facts = Facts {
        amount,
        installments: Count::Given(installments),
        avg_amount,
        hour,
        weekday,
        last,
        km_from_home,
        tx_count_24h: Count::Given(tx_count_24h),
        is_online: f.is_online,
        card_present: f.card_present,
        known_merchant: f.known_merchant,
        merchant_avg_amount,
    };
    assert(facts_of(f@, *n) == Some(facts));
    Some(features(&facts, mcc.lookup_bytes(f.mcc)))
}

/// `x` is what `read` may make of `token`.
pub open spec fn may_read<N, F: Fn(&[u8]) -> Option<N>>(
    read: F,
    token: Seq<u8>,
    x: Option<N>,
) -> bool {
    exists|t: &[u8]| t@ == token && #[trigger] call_ensures(read, (t,), x)
}

/// `n` is what `read` may make of the numbers of `f`.
pub open spec fn may_read_all<N, F: Fn(&[u8]) -> Option<N>>(
    read: F,
    f: Fields<Seq<u8>>,
    n: Numbers<N>,
) -> bool {
    &&& may_read(read, f.amount, n.amount)
    &&& may_read(read, f.installments, n.installments)
    &&& may_read(read, f.avg_amount, n.avg_amount)
    &&& may_read(read, f.tx_count_24h, n.tx_count_24h)
    &&& may_read(read, f.merchant_avg_amount, n.merchant_avg_amount)
    &&& may_read(read, f.km_from_home, n.km_from_home)
    &&& match f.last {
        LastFields::Found { km_from_current, .. } => may_read(
            read,
            km_from_current,
            n.km_from_current,
        ),
        _ => n.km_from_current is None,
    }
}

/// `read` takes everything that is made of what numbers are made of.
pub open spec fn reads_tokens<N, F: Fn(&[u8]) -> Option<N>>(read: F) -> bool {
    forall|t: &[u8]| is_number_token(t@) ==> #[trigger] call_requires(read, (t,))
}

/// Reads the numbers of a body with `read`.
pub fn read_numbers<N: Copy, F: Fn(&[u8]) -> Option<N>>(f: &Fields<&[u8]>, read: &F) -> (n: Numbers<
    N,
>)
    requires
        has_number_tokens(f@),
        reads_tokens(*read),
    ensures
        may_read_all(*read, f@, n),
{
    let km_from_current: Option<N> = match f.last {
        LastFields::Found { km_from_current, .. } => read(km_from_current),
        _ => None,
    };
    Numbers {
        amount: read(f.amount),
        installments: read(f.installments),
        avg_amount: read(f.avg_amount),
        tx_count_24h: read(f.tx_count_24h),
        merchant_avg_amount: read(f.merchant_avg_amount),
        km_from_home: read(f.km_from_home),
        km_from_current,
    }
}

/// The features of the transaction that a body describes. Its numbers are read with `read`. The
/// result is `None` where a field is missing or a number cannot be read.
pub fn parse_and_vectorize<N: Copy, R: Copy, F: Fn(&[u8]) -> Option<N>>(
    body: &[u8],
    mcc: &MccTable<R>,
    read: &F,
) -> (v: Option<[Feature<N, R>; DIM]>)
    requires
        mcc.wf(),
        reads_tokens(*read),
        fields_of(body@) matches Some(f) ==> forall|n: Numbers<N>| #[trigger]
            may_read_all(*read, f, n) ==> is_scorable(f, n),
    ensures
        match fields_of(body@) {
            None => v is None,
            Some(f) => exists|n: Numbers<N>| #[trigger]
                may_read_all(*read, f, n) && is_vector_of(v, f, n, mcc@),
        },
{
    let f: Fields<&[u8]> = read_fields(body)?;
    let n: Numbers<N> = read_numbers(&f, read);
    assert(may_read_all(*read, f@, n));
    let v = vectorize_fields(&f, &n, mcc);
    assert(may_read_all(*read, f@, n) && is_vector_of(v, f@, n, mcc@));
    v
}

/// `f` and `n` say of a transaction what `p` says.
pub open spec fn describes<N>(f: Fields<Seq<u8>>, n: Numbers<N>, p: Payload<N>) -> bool {
    &&& n.are_present()
    &&& n.amount == Some(p.transaction.amount)
    &&& f.requested_at == encode_utf8(p.transaction.requested_at@)
    &&& n.avg_amount == Some(p.customer.avg_amount)
    &&& f.known_merchant == is_named(p.customer.known_merchants@, p.merchant.id@)
    &&& f.mcc == encode_utf8(p.merchant.mcc@)
    &&& n.merchant_avg_amount == Some(p.merchant.avg_amount)
    &&& f.is_online == p.terminal.is_online
    &&& f.card_present == p.terminal.card_present
    &&& n.km_from_home == Some(p.terminal.km_from_home)
    &&& match p.last_transaction {
        None => f.last is Absent,
        Some(l) => match f.last {
            LastFields::Found { timestamp, .. } => timestamp == encode_utf8(l.timestamp@)
                && n.km_from_current == Some(l.km_from_current),
            _ => false,
        },
    }
}

/// A body and a payload that say the same of a transaction have the same features. Only the two
/// counts are written differently: whole numbers in the payload, numbers as read in the body.
pub proof fn law_body_and_payload_agree<N, R>(
    f: Fields<Seq<u8>>,
    n: Numbers<N>,
    p: Payload<N>,
    table: Map<Seq<char>, R>,
)
    requires
        describes(f, n, p),
    ensures
        facts_of(f, n) is Some,
        forall|i: int|
            0 <= i < DIM && i != 1 && i != 8 ==> #[trigger] features_of(
                facts_of(f, n)->0,
                risk_of(table, f.mcc),
            )[i] == features_of(p.facts(), risk_of(table, encode_utf8(p.merchant.mcc@)))[i],
        features_of(facts_of(f, n)->0, risk_of(table, f.mcc))[1] == (Feature::<N, R>::Scaled {
            value: n.installments->0,
            den: 12,
        }),
        features_of(p.facts(), risk_of(table, f.mcc))[1] == (Feature::<N, R>::Clamped {
            count: p.transaction.installments as u64,
            den: 12,
        }),
        features_of(facts_of(f, n)->0, risk_of(table, f.mcc))[8] == (Feature::<N, R>::Scaled {
            value: n.tx_count_24h->0,
            den: 20,
        }),
        features_of(p.facts(), risk_of(table, f.mcc))[8] == (Feature::<N, R>::Clamped {
            count: p.customer.tx_count_24h as u64,
            den: 20,
        }),
{
}

/// A quoted name that every transaction must have.
pub open spec fn is_required(key: Seq<u8>) -> bool {
    ||| key == KEY_TRANSACTION.spec_bytes()
    ||| key == KEY_CUSTOMER.spec_bytes()
    ||| key == KEY_MERCHANT.spec_bytes()
    ||| key == KEY_TERMINAL.spec_bytes()
    ||| key == KEY_AMOUNT.spec_bytes()
    ||| key == KEY_INSTALLMENTS.spec_bytes()
    ||| key == KEY_REQUESTED_AT.spec_bytes()
    ||| key == KEY_AVG_AMOUNT.spec_bytes()
    ||| key == KEY_TX_COUNT_24H.spec_bytes()
    ||| key == KEY_ID.spec_bytes()
    ||| key == KEY_MCC.spec_bytes()
    ||| key == KEY_IS_ONLINE.spec_bytes()
    ||| key == KEY_CARD_PRESENT.spec_bytes()
    ||| key == KEY_KM_FROM_HOME.spec_bytes()
}

/// What stands in an object stands in the body.
proof fn lemma_stands_in_body(body: Seq<u8>, name: Seq<u8>, key: Seq<u8>)
    requires
        forall|r: int| !#[trigger] found_at(body, key, r),
    ensures
        first_occurrence(body, key) is None,
        object(body, name) matches Some(o) ==> first_occurrence(o, key) is None,
{
    law_first_occurrences(body, key, 0);
    if let Some((start, end)) = object_span(body, name) {
        let o = body.subrange(start, end);
        assert(closes_at(body, start, end));
        assert forall|r: int| !#[trigger] found_at(o, key, r) by {
            if found_at(o, key, r) {
                assert forall|j: int| 0 <= j < key.len() implies #[trigger] key[j] == body[start + r
                    + j] by {
                    assert(key[j] == o[r + j]);
                }
                assert(found_at(body, key, start + r));
            }
        }
        law_first_occurrences(o, key, 0);
    }
}

/// A body in which one of the required names stands nowhere gives nothing.
#[verifier::spinoff_prover]
pub proof fn law_missing_names_give_nothing(body: Seq<u8>, key: Seq<u8>)
    requires
        is_required(key),
        forall|r: int| !#[trigger] found_at(body, key, r),
    ensures
        fields_of(body) is None,
{
    lemma_stands_in_body(body, KEY_TRANSACTION.spec_bytes(), key);
    lemma_stands_in_body(body, KEY_CUSTOMER.spec_bytes(), key);
    lemma_stands_in_body(body, KEY_MERCHANT.spec_bytes(), key);
    lemma_stands_in_body(body, KEY_TERMINAL.spec_bytes(), key);
}

/// A body in which the name of the previous transaction stands nowhere has none.
pub proof fn law_missing_previous_transaction_is_absent(body: Seq<u8>)
    requires
        forall|r: int| !#[trigger] found_at(body, KEY_LAST_TRANSACTION.spec_bytes(), r),
    ensures
        fields_of(body) matches Some(f) ==> f.last is Absent,
{
    law_first_occurrences(body, KEY_LAST_TRANSACTION.spec_bytes(), 0);
}

/// A body can be scored if a number is missing, or else if its timestamps can be read, that of the
/// previous transaction only where its distance is there. Something comes of it if and only if no
/// number is missing and a previous transaction, if there is one, is complete.
pub proof fn law_complete_bodies_are_scored<N>(f: Fields<Seq<u8>>, n: Numbers<N>)
    ensures
        ({
            let missing = n.amount is None || n.installments is None || n.avg_amount is None
                || n.tx_count_24h is None || n.merchant_avg_amount is None || n.km_from_home
                is None;
            let legible = is_readable(f.requested_at) && match f.last {
                LastFields::Found { timestamp, .. } => n.km_from_current is None || is_readable(
                    timestamp,
                ),
                _ => true,
            };
            &&& is_scorable(f, n) <==> missing || legible
            &&& missing ==> facts_of(f, n) is None
        }),
        facts_of(f, n) is Some <==> n.amount is Some && n.installments is Some && n.avg_amount
            is Some && n.tx_count_24h is Some && n.merchant_avg_amount is Some && n.km_from_home
            is Some && match f.last {
            LastFields::Absent => true,
            LastFields::Incomplete => false,
            LastFields::Found { .. } => n.km_from_current is Some,
        },
{
}

/// Each number is what is read of its own field.
pub proof fn law_numbers_are_read_by_field<N, F: Fn(&[u8]) -> Option<N>>(
    read: F,
    f: Fields<Seq<u8>>,
    n: Numbers<N>,
)
    requires
        may_read_all(read, f, n),
    ensures
        exists|t: &[u8]| t@ == f.amount && #[trigger] call_ensures(read, (t,), n.amount),
        exists|t: &[u8]|
            t@ == f.installments && #[trigger] call_ensures(read, (t,), n.installments),
        exists|t: &[u8]| t@ == f.avg_amount && #[trigger] call_ensures(read, (t,), n.avg_amount),
        exists|t: &[u8]|
            t@ == f.tx_count_24h && #[trigger] call_ensures(read, (t,), n.tx_count_24h),
        exists|t: &[u8]|
            t@ == f.merchant_avg_amount && #[trigger] call_ensures(
                read,
                (t,),
                n.merchant_avg_amount,
            ),
        exists|t: &[u8]|
            t@ == f.km_from_home && #[trigger] call_ensures(read, (t,), n.km_from_home),
        f.last matches LastFields::Found { km_from_current, .. } ==> exists|t: &[u8]|
            t@ == km_from_current && #[trigger] call_ensures(read, (t,), n.km_from_current),
{
}

/// The digits of a number.
pub open spec fn are_digits(s: Seq<u8>) -> bool {
    s.len() > 0 && forall|i: int| 0 <= i < s.len() ==> 48 <= #[trigger] s[i] <= 57
}

/// A number as JSON has it: a minus sign, digits, a point and digits, an exponent with its sign.
pub open spec fn json_number(
    minus: bool,
    whole: Seq<u8>,
    fraction: Option<Seq<u8>>,
    exponent: Option<(u8, Seq<u8>, Seq<u8>)>,
) -> Seq<u8> {
    (if minus {
        seq![45u8]
    } else {
        Seq::empty()
    }) + whole + (match fraction {
        None => Seq::empty(),
        Some(digits) => seq![46u8] + digits,
    }) + (match exponent {
        None => Seq::empty(),
        Some((mark, sign, digits)) => seq![mark] + sign + digits,
    })
}

/// The numbers of JSON are read as numbers, to their last byte.
#[verifier::spinoff_prover]
pub proof fn law_json_numbers_are_numbers(
    minus: bool,
    whole: Seq<u8>,
    fraction: Option<Seq<u8>>,
    exponent: Option<(u8, Seq<u8>, Seq<u8>)>,
)
    requires
        are_digits(whole),
        fraction matches Some(digits) ==> are_digits(digits),
        exponent matches Some((mark, sign, digits)) ==> (mark == 101 || mark == 69) && are_digits(
            digits,
        ) && (sign.len() == 0 || (sign.len() == 1 && (sign[0] == 43 || sign[0] == 45))),
    ensures
        is_number_token(json_number(minus, whole, fraction, exponent)),
        json_number(minus, whole, fraction, exponent).len() > 0,
{
    let a: Seq<u8> = if minus {
        seq![45u8]
    } else {
        Seq::empty()
    };
    let c: Seq<u8> = match fraction {
        None => Seq::empty(),
        Some(digits) => seq![46u8] + digits,
    };
    let d: Seq<u8> = match exponent {
        None => Seq::empty(),
        Some((mark, sign, digits)) => seq![mark] + sign + digits,
    };
    let s = json_number(minus, whole, fraction, exponent);
    assert(s == a + whole + c + d);
    assert forall|i: int| 0 <= i < c.len() implies ByteSet::Number.holds(#[trigger] c[i]) by {
        if i > 0 {
            assert(c[i] == fraction->0[i - 1]);
        }
    }
    assert forall|i: int| 0 <= i < d.len() implies ByteSet::Number.holds(#[trigger] d[i]) by {
        let (mark, sign, digits) = exponent->0;
        if i == 0 {
            assert(d[i] == mark);
        } else if i < 1 + sign.len() {
            assert(d[i] == sign[i - 1]);
        } else {
            assert(d[i] == digits[i - 1 - sign.len()]);
        }
    }
    assert forall|i: int| 0 <= i < s.len() implies ByteSet::Number.holds(#[trigger] s[i]) by {
        if i < a.len() {
            assert(s[i] == a[i]);
        } else if i < a.len() + whole.len() {
            assert(s[i] == whole[i - a.len()]);
        } else if i < a.len() + whole.len() + c.len() {
            assert(s[i] == c[i - a.len() - whole.len()]);
        } else {
            assert(s[i] == d[i - a.len() - whole.len() - c.len()]);
        }
    }
}

} // verus!
