//! What is read of any bytes at all, well-formed or not.

use vstd::prelude::*;
use vstd::string::StringSliceAdditionalSpecFns;
use vstd::utf8::{decode_utf8, encode_utf8, valid_utf8};
use crate::parser::{
    array_field,
    closes_at,
    field_start,
    fields_of,
    flag_field,
    last_fields_of,
    lemma_object_end,
    nest,
    nesting,
    number_field,
    object,
    object_end,
    quoted_strings,
    text_field,
    value_start,
    LastFields,
    KEY_AMOUNT,
    KEY_AVG_AMOUNT,
    KEY_CARD_PRESENT,
    KEY_CUSTOMER,
    KEY_ID,
    KEY_INSTALLMENTS,
    KEY_IS_ONLINE,
    KEY_KM_FROM_CURRENT,
    KEY_KM_FROM_HOME,
    KEY_KNOWN_MERCHANTS,
    KEY_LAST_TRANSACTION,
    KEY_MCC,
    KEY_MERCHANT,
    KEY_REQUESTED_AT,
    KEY_TERMINAL,
    KEY_TIMESTAMP,
    KEY_TRANSACTION,
    KEY_TX_COUNT_24H,
};
use crate::scan::{
    found_at,
    has_prefix,
    law_first_occurrences,
    lemma_run_end,
    run_end,
    ByteSet,
};
use crate::vectorizer::risk_of;

verus! {

/// A space, a tab or the end of a line.
pub open spec fn is_space(c: u8) -> bool {
    c == 32 || c == 9 || c == 10 || c == 13
}

/// A byte of a number: a digit, a sign, a point or the mark of an exponent.
pub open spec fn is_number_byte(c: u8) -> bool {
    48 <= c <= 57 || c == 43 || c == 45 || c == 46 || c == 69 || c == 101
}

/// The bytes from `i` up to `e` are no colons.
pub open spec fn no_colons(buf: Seq<u8>, i: int, e: int) -> bool {
    forall|j: int| i <= j < e ==> #[trigger] buf[j] != 58
}

/// The bytes from `i` up to `e` are no quotes.
pub open spec fn no_quotes(buf: Seq<u8>, i: int, e: int) -> bool {
    forall|j: int| i <= j < e ==> #[trigger] buf[j] != 34
}

/// The bytes from `i` up to `e` are spaces, tabs and line ends.
pub open spec fn spaces(buf: Seq<u8>, i: int, e: int) -> bool {
    forall|j: int| i <= j < e ==> is_space(#[trigger] buf[j])
}

/// The bytes from `i` up to `e` are those of numbers.
pub open spec fn number_bytes_from(buf: Seq<u8>, i: int, e: int) -> bool {
    forall|j: int| i <= j < e ==> is_number_byte(#[trigger] buf[j])
}

/// Behind `from`, the next colon stands at `c`, and behind it, the next byte that is no space at
/// `v`.
pub open spec fn is_value_at(buf: Seq<u8>, from: int, c: int, v: int) -> bool {
    &&& 0 <= from <= c < v < buf.len()
    &&& no_colons(buf, from, c)
    &&& buf[c] == 58
    &&& spaces(buf, c + 1, v)
    &&& !is_space(buf[v])
}

/// `key` stands at `p` and nowhere before.
pub open spec fn is_first(buf: Seq<u8>, key: Seq<u8>, p: int) -> bool {
    found_at(buf, key, p) && forall|r: int| 0 <= r < p ==> !#[trigger] found_at(buf, key, r)
}

/// A run goes as far as its bytes do.
proof fn lemma_run_to(buf: Seq<u8>, i: int, e: int, set: ByteSet)
    requires
        0 <= i <= e <= buf.len(),
        forall|j: int| i <= j < e ==> set.holds(#[trigger] buf[j]),
        e < buf.len() ==> !set.holds(buf[e]),
    ensures
        run_end(buf, i, set) == e,
    decreases e - i,
{
    if i < e {
        lemma_run_to(buf, i + 1, e, set);
    }
}

/// A value is what stands behind the next colon, but for spaces; if nothing stands there, there is
/// no value.
pub proof fn law_values_stand_behind_colons(buf: Seq<u8>, from: int, c: int, v: int)
    requires
        0 <= from <= buf.len(),
    ensures
        is_value_at(buf, from, c, v) ==> value_start(buf, from) == Some(v),
        value_start(buf, from) is Some <==> exists|a: int, b: int| is_value_at(buf, from, a, b),
{
    if is_value_at(buf, from, c, v) {
        lemma_value_at(buf, from, c, v);
    }
    if value_start(buf, from) is Some {
        let a = run_end(buf, from, ByteSet::NotColon);
        let b = run_end(buf, a + 1, ByteSet::Blank);
        lemma_run_end(buf, from, ByteSet::NotColon);
        lemma_run_end(buf, a + 1, ByteSet::Blank);
        assert(is_value_at(buf, from, a, b));
    }
    if exists|a: int, b: int| is_value_at(buf, from, a, b) {
        let (a, b) = choose|a: int, b: int| is_value_at(buf, from, a, b);
        lemma_value_at(buf, from, a, b);
    }
}

proof fn lemma_value_at(buf: Seq<u8>, from: int, c: int, v: int)
    requires
        is_value_at(buf, from, c, v),
    ensures
        value_start(buf, from) == Some(v),
{
    lemma_run_to(buf, from, c, ByteSet::NotColon);
    lemma_run_to(buf, c + 1, v, ByteSet::Blank);
}

/// Without its name, or without a value behind it, a field is not there.
pub proof fn law_fields_without_values_are_missing(buf: Seq<u8>, key: Seq<u8>, p: int)
    requires
        (forall|r: int| !#[trigger] found_at(buf, key, r)) || (is_first(buf, key, p) && forall|
            c: int,
            v: int,
        |
            !#[trigger] is_value_at(buf, (p + key.len()) as int, c, v)),
    ensures
        number_field(buf, key) is None,
        text_field(buf, key) is None,
        flag_field(buf, key) is None,
{
    law_first_occurrences(buf, key, p);
    if is_first(buf, key, p) {
        law_values_stand_behind_colons(buf, (p + key.len()) as int, 0, 0);
    }
}

/// A field begins where its value does.
proof fn lemma_field_at(buf: Seq<u8>, key: Seq<u8>, p: int, c: int, v: int)
    requires
        is_first(buf, key, p),
        is_value_at(buf, (p + key.len()) as int, c, v),
    ensures
        field_start(buf, key) == Some(v),
{
    law_first_occurrences(buf, key, p);
    lemma_value_at(buf, (p + key.len()) as int, c, v);
}

/// A number is every byte of a number that stands there, which may be none.
pub proof fn law_numbers_are_read_to_their_end(
    buf: Seq<u8>,
    key: Seq<u8>,
    p: int,
    c: int,
    v: int,
    e: int,
)
    requires
        is_first(buf, key, p),
        is_value_at(buf, (p + key.len()) as int, c, v),
        v <= e <= buf.len(),
        number_bytes_from(buf, v, e),
        e < buf.len() ==> !is_number_byte(buf[e]),
    ensures
        number_field(buf, key) == Some(buf.subrange(v, e)),
{
    lemma_field_at(buf, key, p, c, v);
    lemma_run_to(buf, v, e, ByteSet::Number);
}

/// A string is what stands between two quotes, or behind one that is the last. What does not begin
/// with a quote is no string.
pub proof fn law_strings_are_read_to_their_end(
    buf: Seq<u8>,
    key: Seq<u8>,
    p: int,
    c: int,
    v: int,
    e: int,
)
    requires
        is_first(buf, key, p),
        is_value_at(buf, (p + key.len()) as int, c, v),
    ensures
        buf[v] != 34 ==> text_field(buf, key) is None,
        buf[v] == 34 && v < e <= buf.len() && no_quotes(buf, v + 1, e) && (e < buf.len() ==> buf[e]
            == 34) ==> text_field(buf, key) == Some(buf.subrange(v + 1, e)),
{
    lemma_field_at(buf, key, p, c, v);
    if buf[v] == 34 && v < e <= buf.len() && no_quotes(buf, v + 1, e) && (e < buf.len() ==> buf[e]
        == 34) {
        lemma_run_to(buf, v + 1, e, ByteSet::NotQuote);
    }
}

/// A truth value is what begins with one of the two words; anything else is none.
pub proof fn law_flags_are_read_by_their_word(buf: Seq<u8>, key: Seq<u8>, p: int, c: int, v: int)
    requires
        is_first(buf, key, p),
        is_value_at(buf, (p + key.len()) as int, c, v),
    ensures
        flag_field(buf, key) == Some(true) <==> found_at(buf, seq![116u8, 114, 117, 101], v),
        flag_field(buf, key) == Some(false) <==> found_at(buf, seq![102u8, 97, 108, 115, 101], v),
{
    lemma_field_at(buf, key, p, c, v);
    let yes = seq![116u8, 114, 117, 101];
    let no = seq![102u8, 97, 108, 115, 101];
    reveal_strlit("true");
    reveal_strlit("false");
    vstd::utf8::is_ascii_chars_encode_utf8("true"@);
    vstd::utf8::is_ascii_chars_encode_utf8("false"@);
    assert("true".spec_bytes() =~= yes);
    assert("false".spec_bytes() =~= no);
    lemma_word_at(buf, yes, v);
    lemma_word_at(buf, no, v);
    if found_at(buf, yes, v) && found_at(buf, no, v) {
        assert(yes[0] == buf[v + 0]);
        assert(no[0] == buf[v + 0]);
    }
}

proof fn lemma_word_at(buf: Seq<u8>, word: Seq<u8>, v: int)
    requires
        0 <= v <= buf.len(),
    ensures
        has_prefix(buf.subrange(v, buf.len() as int), word) == found_at(buf, word, v),
{
    let rest = buf.subrange(v, buf.len() as int);
    if has_prefix(rest, word) {
        assert forall|j: int| 0 <= j < word.len() implies #[trigger] word[j] == buf[v + j] by {
            assert(rest.take(word.len() as int)[j] == rest[j]);
        }
    }
    if found_at(buf, word, v) {
        assert(rest.take(word.len() as int) =~= word);
    }
}

/// An array is looked for behind spaces, tabs and colons. Without a bracket there is none.
pub proof fn law_arrays_begin_with_a_bracket(buf: Seq<u8>, key: Seq<u8>, p: int, i: int)
    requires
        (forall|r: int| !#[trigger] found_at(buf, key, r)) || (is_first(buf, key, p) && p
            + key.len() <= i <= buf.len() && (forall|j: int|
            p + key.len() <= j < i ==> #[trigger] buf[j] == 32 || buf[j] == 9 || buf[j] == 58) && (i
            < buf.len() ==> buf[i] != 32 && buf[i] != 9 && buf[i] != 58 && buf[i] != 91)),
    ensures
        array_field(buf, key) == Seq::<Seq<u8>>::empty(),
{
    law_first_occurrences(buf, key, p);
    if is_first(buf, key, p) {
        lemma_run_to(buf, (p + key.len()) as int, i, ByteSet::GapOrColon);
    }
}

/// `t` stands between two quotes, or behind the last one, from `i` on, and is reached from there
/// without a closing bracket outside of quotes.
pub open spec fn is_listed(buf: Seq<u8>, i: int, t: Seq<u8>) -> bool
    decreases buf.len() + 1 - i,
{
    &&& 0 <= i < buf.len()
    &&& buf[i] != 93
    &&& if buf[i] == 34 {
        exists|e: int|
            i < e <= buf.len() && #[trigger] no_quotes(buf, i + 1, e) && (e < buf.len() ==> buf[e]
                == 34) && (t == buf.subrange(i + 1, e) || is_listed(buf, e + 1, t))
    } else {
        is_listed(buf, i + 1, t)
    }
}

proof fn lemma_listed(buf: Seq<u8>, i: int, t: Seq<u8>)
    ensures
        quoted_strings(buf, i).contains(t) == is_listed(buf, i, t),
    decreases buf.len() + 1 - i,
{
    if 0 <= i < buf.len() && buf[i] != 93 {
        if buf[i] == 34 {
            let e = run_end(buf, i + 1, ByteSet::NotQuote);
            lemma_run_end(buf, i + 1, ByteSet::NotQuote);
            assert(no_quotes(buf, i + 1, e));
            let first = buf.subrange(i + 1, e);
            let others = quoted_strings(buf, e + 1);
            let all = seq![first] + others;
            lemma_listed(buf, e + 1, t);
            assert(quoted_strings(buf, i) == all);
            assert(all.contains(t) <==> (first == t || others.contains(t))) by {
                if first == t {
                    assert(all[0] == t);
                }
                if others.contains(t) {
                    let k = choose|k: int| 0 <= k < others.len() && others[k] == t;
                    assert(all[k + 1] == t);
                }
                if all.contains(t) {
                    let k = choose|k: int| 0 <= k < all.len() && all[k] == t;
                    if k > 0 {
                        assert(others[k - 1] == t);
                    }
                }
            }
            if is_listed(buf, i, t) {
                let x = choose|x: int|
                    i < x <= buf.len() && #[trigger] no_quotes(buf, i + 1, x) && (x < buf.len()
                        ==> buf[x] == 34) && (t == buf.subrange(i + 1, x) || is_listed(
                        buf,
                        x + 1,
                        t,
                    ));
                lemma_run_to(buf, i + 1, x, ByteSet::NotQuote);
            }
        } else {
            lemma_listed(buf, i + 1, t);
        }
    } else {
        assert(quoted_strings(buf, i) =~= Seq::empty());
    }
}

/// An array holds the strings between its brackets, and only those.
pub proof fn law_arrays_hold_their_strings(
    buf: Seq<u8>,
    key: Seq<u8>,
    p: int,
    i: int,
    t: Seq<u8>,
)
    requires
        is_first(buf, key, p),
        p + key.len() <= i < buf.len(),
        forall|j: int|
            p + key.len() <= j < i ==> #[trigger] buf[j] == 32 || buf[j] == 9 || buf[j] == 58,
        buf[i] == 91,
    ensures
        array_field(buf, key).contains(t) <==> is_listed(buf, i + 1, t),
{
    law_first_occurrences(buf, key, p);
    lemma_run_to(buf, (p + key.len()) as int, i, ByteSet::GapOrColon);
    lemma_listed(buf, i + 1, t);
}

/// An object is looked for behind spaces and colons. Without a brace there is none.
pub proof fn law_objects_begin_with_a_brace(buf: Seq<u8>, key: Seq<u8>, p: int, i: int)
    requires
        (forall|r: int| !#[trigger] found_at(buf, key, r)) || (is_first(buf, key, p) && p
            + key.len() <= i <= buf.len() && (forall|j: int|
            p + key.len() <= j < i ==> is_space(#[trigger] buf[j]) || buf[j] == 58) && (i
            < buf.len() ==> !is_space(buf[i]) && buf[i] != 58 && buf[i] != 123)),
    ensures
        object(buf, key) is None,
{
    law_first_occurrences(buf, key, p);
    if is_first(buf, key, p) {
        lemma_run_to(buf, (p + key.len()) as int, i, ByteSet::BlankOrColon);
    }
}

/// How many of the bytes from `i` up to `e` are `c`.
pub open spec fn count_of(buf: Seq<u8>, i: int, e: int, c: u8) -> int
    decreases e - i,
{
    if e <= i {
        0
    } else {
        count_of(buf, i, e - 1, c) + if buf[e - 1] == c {
            1int
        } else {
            0
        }
    }
}

proof fn lemma_depth_counts(buf: Seq<u8>, i: int, e: int)
    requires
        0 <= i <= e <= buf.len(),
        no_quotes(buf, i, e),
    ensures
        !nesting(buf, i, e).in_str,
        nesting(buf, i, e).depth == count_of(buf, i, e, 123) - count_of(buf, i, e, 125),
    decreases e - i,
{
    if i < e {
        lemma_depth_counts(buf, i, e - 1);
        assert(nesting(buf, i, e) == nest(nesting(buf, i, e - 1), buf[e - 1]));
    }
}

/// Where no quotes are in the way, an object ends where as many braces have closed as have opened;
/// if that comes nowhere, it does not end.
pub proof fn law_objects_end_where_braces_balance(buf: Seq<u8>, i: int, e: int)
    requires
        0 <= i < e <= buf.len(),
        no_quotes(buf, i, e),
        forall|j: int|
            i < j < e ==> #[trigger] count_of(buf, i, j, 123) > count_of(buf, i, j, 125),
    ensures
        count_of(buf, i, e, 123) == count_of(buf, i, e, 125) ==> object_end(buf, i) == Some(e),
        count_of(buf, i, e, 123) > count_of(buf, i, e, 125) && e == buf.len() ==> object_end(buf, i)
            is None,
{
    assert forall|j: int| i < j < e implies (#[trigger] nesting(buf, i, j)).depth > 0 by {
        lemma_depth_counts(buf, i, j);
        assert(count_of(buf, i, j, 123) > count_of(buf, i, j, 125));
    }
    lemma_depth_counts(buf, i, e);
    if count_of(buf, i, e, 123) == count_of(buf, i, e, 125) {
        lemma_object_end(buf, i, e);
    } else if count_of(buf, i, e, 123) > count_of(buf, i, e, 125) && e == buf.len() {
        if object_end(buf, i) is Some {
            let x = choose|x: int| closes_at(buf, i, x);
            assert(closes_at(buf, i, x));
            assert(nesting(buf, i, x).depth > 0);
        }
    }
}

/// Every field is looked up in the object that it belongs to, and something comes of a body if and
/// only if none is missing.
pub proof fn law_fields_are_looked_up_in_their_objects(body: Seq<u8>)
    ensures
        ({
            let tx = object(body, KEY_TRANSACTION.spec_bytes());
            let cust = object(body, KEY_CUSTOMER.spec_bytes());
            let merch = object(body, KEY_MERCHANT.spec_bytes());
            let term = object(body, KEY_TERMINAL.spec_bytes());
            let amount = number_field(tx->0, KEY_AMOUNT.spec_bytes());
            let installments = number_field(tx->0, KEY_INSTALLMENTS.spec_bytes());
            let requested_at = text_field(tx->0, KEY_REQUESTED_AT.spec_bytes());
            let avg_amount = number_field(cust->0, KEY_AVG_AMOUNT.spec_bytes());
            let tx_count = number_field(cust->0, KEY_TX_COUNT_24H.spec_bytes());
            let id = text_field(merch->0, KEY_ID.spec_bytes());
            let mcc = text_field(merch->0, KEY_MCC.spec_bytes());
            let merch_avg = number_field(merch->0, KEY_AVG_AMOUNT.spec_bytes());
            let online = flag_field(term->0, KEY_IS_ONLINE.spec_bytes());
            let present = flag_field(term->0, KEY_CARD_PRESENT.spec_bytes());
            let km = number_field(term->0, KEY_KM_FROM_HOME.spec_bytes());
            &&& fields_of(body) is Some <==> tx is Some && cust is Some && merch is Some && term
                is Some && amount is Some && installments is Some && requested_at is Some
                && avg_amount is Some && tx_count is Some && id is Some && mcc is Some && merch_avg
                is Some && online is Some && present is Some && km is Some
            &&& fields_of(body) matches Some(f) ==> {
                &&& Some(f.amount) == amount
                &&& Some(f.installments) == installments
                &&& Some(f.requested_at) == requested_at
                &&& Some(f.avg_amount) == avg_amount
                &&& Some(f.tx_count_24h) == tx_count
                &&& Some(f.mcc) == mcc
                &&& Some(f.merchant_avg_amount) == merch_avg
                &&& Some(f.is_online) == online
                &&& Some(f.card_present) == present
                &&& Some(f.km_from_home) == km
                &&& f.known_merchant == array_field(
                    cust->0,
                    KEY_KNOWN_MERCHANTS.spec_bytes(),
                ).contains(id->0)
                &&& f.last == last_fields_of(body)
            }
        }),
{
}

/// There is no previous transaction without its object; with it, both of its fields are looked up
/// there, and neither may be missing.
pub proof fn law_previous_fields_are_looked_up_in_their_object(body: Seq<u8>)
    ensures
        ({
            let last = object(body, KEY_LAST_TRANSACTION.spec_bytes());
            let timestamp = text_field(last->0, KEY_TIMESTAMP.spec_bytes());
            let km = number_field(last->0, KEY_KM_FROM_CURRENT.spec_bytes());
            &&& last_fields_of(body) is Absent <==> last is None
            &&& last_fields_of(body) is Incomplete <==> last is Some && (timestamp is None || km
                is None)
            &&& last_fields_of(body) matches LastFields::Found {
                timestamp: t,
                km_from_current: k,
            } ==> timestamp == Some(t) && km == Some(k)
        }),
{
}

/// A category has the risk that the table gives to the text that its bytes spell; bytes that spell
/// no text have none.
pub proof fn law_risks_are_looked_up_by_text<R>(
    table: Map<Seq<char>, R>,
    text: Seq<char>,
    code: Seq<u8>,
)
    ensures
        table.contains_key(text) ==> risk_of(table, encode_utf8(text)) == Some(table[text]),
        !table.contains_key(text) ==> risk_of(table, encode_utf8(text)) is None,
        (forall|t: Seq<char>| #[trigger] encode_utf8(t) != code) ==> risk_of(table, code) is None,
{
    vstd::utf8::encode_utf8_valid_utf8(text);
    vstd::utf8::encode_utf8_decode_utf8(text);
    if valid_utf8(code) {
        vstd::utf8::decode_utf8_encode_utf8(code);
        assert(encode_utf8(decode_utf8(code)) == code);
    }
}

/// The names that are looked for, with their quotes.
pub proof fn law_names_of_fields()
    ensures
        KEY_TRANSACTION.spec_bytes() == "\"transaction\"".spec_bytes(),
        KEY_CUSTOMER.spec_bytes() == "\"customer\"".spec_bytes(),
        KEY_MERCHANT.spec_bytes() == "\"merchant\"".spec_bytes(),
        KEY_TERMINAL.spec_bytes() == "\"terminal\"".spec_bytes(),
        KEY_LAST_TRANSACTION.spec_bytes() == "\"last_transaction\"".spec_bytes(),
        KEY_AMOUNT.spec_bytes() == "\"amount\"".spec_bytes(),
        KEY_INSTALLMENTS.spec_bytes() == "\"installments\"".spec_bytes(),
        KEY_REQUESTED_AT.spec_bytes() == "\"requested_at\"".spec_bytes(),
        KEY_AVG_AMOUNT.spec_bytes() == "\"avg_amount\"".spec_bytes(),
        KEY_TX_COUNT_24H.spec_bytes() == "\"tx_count_24h\"".spec_bytes(),
        KEY_ID.spec_bytes() == "\"id\"".spec_bytes(),
        KEY_KNOWN_MERCHANTS.spec_bytes() == "\"known_merchants\"".spec_bytes(),
        KEY_MCC.spec_bytes() == "\"mcc\"".spec_bytes(),
        KEY_IS_ONLINE.spec_bytes() == "\"is_online\"".spec_bytes(),
        KEY_CARD_PRESENT.spec_bytes() == "\"card_present\"".spec_bytes(),
        KEY_KM_FROM_HOME.spec_bytes() == "\"km_from_home\"".spec_bytes(),
        KEY_TIMESTAMP.spec_bytes() == "\"timestamp\"".spec_bytes(),
        KEY_KM_FROM_CURRENT.spec_bytes() == "\"km_from_current\"".spec_bytes(),
{
}

} // verus!
