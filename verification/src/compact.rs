//! Compact bodies: how a transaction is spelled without blanks, and that it reads back.

use vstd::prelude::*;
use vstd::string::StringSliceAdditionalSpecFns;
use vstd::utf8::encode_utf8;
use crate::items::{
    are_items,
    flag_bytes,
    is_flat,
    is_item,
    is_key,
    is_name_byte,
    is_unescaped,
    lacks,
    lemma_array,
    lemma_first_in_object,
    lemma_flag,
    lemma_flag_bytes,
    lemma_key_is_quoted,
    lemma_number,
    lemma_object,
    lemma_spell_concat,
    lemma_spell_single,
    lemma_text,
    list_items,
    name_of,
    quoted,
    spell,
    spell_one,
    Item,
};
use crate::ivf::DIM;
use crate::parser::{
    array_field,
    describes,
    facts_of,
    fields_in,
    fields_of,
    flag_field,
    is_number_token,
    last_fields_of,
    law_body_and_payload_agree,
    number_field,
    object,
    text_field,
    Fields,
    LastFields,
    Numbers,
    KEY_AMOUNT,
    KEY_AVG_AMOUNT,
    KEY_CARD_PRESENT,
    KEY_CUSTOMER,
    KEY_ID,
    KEY_INSTALLMENTS,
    KEY_IS_ONLINE,
    KEY_KM_FROM_CURRENT,
    KEY_KM_FROM_HOME,
    KEY_KNOWN_MERCHANTS,
    KEY_LAST_TRANSACTION,
    KEY_MCC,
    KEY_MERCHANT,
    KEY_REQUESTED_AT,
    KEY_TERMINAL,
    KEY_TIMESTAMP,
    KEY_TRANSACTION,
    KEY_TX_COUNT_24H,
};
use crate::scan::{run_end, ByteSet};
use crate::vectorizer::{features_of, is_named, risk_of, Payload};

verus! {

/// `key` is a quoted name of `len` bytes with its quotes, whose first letters are `a` and `b`.
#[verifier::opaque]
spec fn is_key_with(key: &str, len: nat, a: u8, b: u8) -> bool {
    &&& is_key(key.spec_bytes())
    &&& key.spec_bytes().len() == len
    &&& key.spec_bytes()[1] == a
    &&& key.spec_bytes()[2] == b
}

/// A character of a field's name.
spec fn is_name_char(c: char) -> bool {
    'a' <= c <= 'z' || '0' <= c <= '9' || c == '_'
}

proof fn lemma_key_bytes(key: &str)
    requires
        key@.len() >= 4,
        key@[0] == '"',
        key@[key@.len() - 1] == '"',
        forall|i: int| 1 <= i < key@.len() - 1 ==> is_name_char(#[trigger] key@[i]),
    ensures
        is_key_with(key, key@.len(), key@[1] as u8, key@[2] as u8),
{
    reveal(is_key_with);
    vstd::utf8::is_ascii_chars_encode_utf8(key@);
    let b = key.spec_bytes();
    assert(key@[0] as u8 == b[0]);
    assert(key@[key@.len() - 1] as u8 == b[key@.len() - 1]);
    assert(key@[1] as u8 == b[1]);
    assert(key@[2] as u8 == b[2]);
    assert forall|i: int| 1 <= i < b.len() - 1 implies is_name_byte(#[trigger] b[i]) by {
        assert(key@[i] as u8 == b[i]);
        assert(is_name_char(key@[i]));
    }
}

/// The keys are keys, and told apart by their lengths and first letters.
#[verifier::spinoff_prover]
proof fn lemma_keys()
    ensures
        is_key_with(KEY_TRANSACTION, 13, 116, 114),
        is_key_with(KEY_CUSTOMER, 10, 99, 117),
        is_key_with(KEY_MERCHANT, 10, 109, 101),
        is_key_with(KEY_TERMINAL, 10, 116, 101),
        is_key_with(KEY_LAST_TRANSACTION, 18, 108, 97),
        is_key_with(KEY_AMOUNT, 8, 97, 109),
        is_key_with(KEY_INSTALLMENTS, 14, 105, 110),
        is_key_with(KEY_REQUESTED_AT, 14, 114, 101),
        is_key_with(KEY_AVG_AMOUNT, 12, 97, 118),
        is_key_with(KEY_TX_COUNT_24H, 14, 116, 120),
        is_key_with(KEY_ID, 4, 105, 100),
        is_key_with(KEY_KNOWN_MERCHANTS, 17, 107, 110),
        is_key_with(KEY_MCC, 5, 109, 99),
        is_key_with(KEY_IS_ONLINE, 11, 105, 115),
        is_key_with(KEY_CARD_PRESENT, 14, 99, 97),
        is_key_with(KEY_KM_FROM_HOME, 14, 107, 109),
        is_key_with(KEY_TIMESTAMP, 11, 116, 105),
        is_key_with(KEY_KM_FROM_CURRENT, 17, 107, 109),
{
    assert(is_key_with(KEY_TRANSACTION, 13, 116, 114)) by {
        reveal_strlit("\"transaction\"");
        lemma_key_bytes(KEY_TRANSACTION);
    }
    assert(is_key_with(KEY_CUSTOMER, 10, 99, 117)) by {
        reveal_strlit("\"customer\"");
        lemma_key_bytes(KEY_CUSTOMER);
    }
    assert(is_key_with(KEY_MERCHANT, 10, 109, 101)) by {
        reveal_strlit("\"merchant\"");
        lemma_key_bytes(KEY_MERCHANT);
    }
    assert(is_key_with(KEY_TERMINAL, 10, 116, 101)) by {
        reveal_strlit("\"terminal\"");
        lemma_key_bytes(KEY_TERMINAL);
    }
    assert(is_key_with(KEY_LAST_TRANSACTION, 18, 108, 97)) by {
        reveal_strlit("\"last_transaction\"");
        lemma_key_bytes(KEY_LAST_TRANSACTION);
    }
    assert(is_key_with(KEY_AMOUNT, 8, 97, 109)) by {
        reveal_strlit("\"amount\"");
        lemma_key_bytes(KEY_AMOUNT);
    }
    assert(is_key_with(KEY_INSTALLMENTS, 14, 105, 110)) by {
        reveal_strlit("\"installments\"");
        lemma_key_bytes(KEY_INSTALLMENTS);
    }
    assert(is_key_with(KEY_REQUESTED_AT, 14, 114, 101)) by {
        reveal_strlit("\"requested_at\"");
        lemma_key_bytes(KEY_REQUESTED_AT);
    }
    assert(is_key_with(KEY_AVG_AMOUNT, 12, 97, 118)) by {
        reveal_strlit("\"avg_amount\"");
        lemma_key_bytes(KEY_AVG_AMOUNT);
    }
    assert(is_key_with(KEY_TX_COUNT_24H, 14, 116, 120)) by {
        reveal_strlit("\"tx_count_24h\"");
        lemma_key_bytes(KEY_TX_COUNT_24H);
    }
    assert(is_key_with(KEY_ID, 4, 105, 100)) by {
        reveal_strlit("\"id\"");
        lemma_key_bytes(KEY_ID);
    }
    assert(is_key_with(KEY_KNOWN_MERCHANTS, 17, 107, 110)) by {
        reveal_strlit("\"known_merchants\"");
        lemma_key_bytes(KEY_KNOWN_MERCHANTS);
    }
    assert(is_key_with(KEY_MCC, 5, 109, 99)) by {
        reveal_strlit("\"mcc\"");
        lemma_key_bytes(KEY_MCC);
    }
    assert(is_key_with(KEY_IS_ONLINE, 11, 105, 115)) by {
        reveal_strlit("\"is_online\"");
        lemma_key_bytes(KEY_IS_ONLINE);
    }
    assert(is_key_with(KEY_CARD_PRESENT, 14, 99, 97)) by {
        reveal_strlit("\"card_present\"");
        lemma_key_bytes(KEY_CARD_PRESENT);
    }
    assert(is_key_with(KEY_KM_FROM_HOME, 14, 107, 109)) by {
        reveal_strlit("\"km_from_home\"");
        lemma_key_bytes(KEY_KM_FROM_HOME);
    }
    assert(is_key_with(KEY_TIMESTAMP, 11, 116, 105)) by {
        reveal_strlit("\"timestamp\"");
        lemma_key_bytes(KEY_TIMESTAMP);
    }
    assert(is_key_with(KEY_KM_FROM_CURRENT, 17, 107, 109)) by {
        reveal_strlit("\"km_from_current\"");
        lemma_key_bytes(KEY_KM_FROM_CURRENT);
    }
}

/// The key of an object of a body.
pub open spec fn is_section_key(key: Seq<u8>) -> bool {
    ||| key == KEY_TRANSACTION.spec_bytes()
    ||| key == KEY_CUSTOMER.spec_bytes()
    ||| key == KEY_MERCHANT.spec_bytes()
    ||| key == KEY_TERMINAL.spec_bytes()
    ||| key == KEY_LAST_TRANSACTION.spec_bytes()
}

/// The key of a field of one of the objects.
pub open spec fn is_field_key(key: Seq<u8>) -> bool {
    ||| key == KEY_AMOUNT.spec_bytes()
    ||| key == KEY_INSTALLMENTS.spec_bytes()
    ||| key == KEY_REQUESTED_AT.spec_bytes()
    ||| key == KEY_AVG_AMOUNT.spec_bytes()
    ||| key == KEY_TX_COUNT_24H.spec_bytes()
    ||| key == KEY_ID.spec_bytes()
    ||| key == KEY_KNOWN_MERCHANTS.spec_bytes()
    ||| key == KEY_MCC.spec_bytes()
    ||| key == KEY_IS_ONLINE.spec_bytes()
    ||| key == KEY_CARD_PRESENT.spec_bytes()
    ||| key == KEY_KM_FROM_HOME.spec_bytes()
    ||| key == KEY_TIMESTAMP.spec_bytes()
    ||| key == KEY_KM_FROM_CURRENT.spec_bytes()
}

/// The key of an object or a field.
pub open spec fn is_known_key(key: Seq<u8>) -> bool {
    is_section_key(key) || is_field_key(key)
}

/// Known keys are keys, and those of objects are not those of fields.
#[verifier::spinoff_prover]
pub proof fn lemma_known_key(key: Seq<u8>)
    requires
        is_known_key(key),
    ensures
        is_key(key),
        is_section_key(key) ==> !is_field_key(key),
{
    lemma_keys();
    reveal(is_key_with);
}

/// Different keys have different names.
pub proof fn lemma_names_differ(a: Seq<u8>, b: Seq<u8>)
    requires
        is_key(a),
        is_key(b),
        a != b,
    ensures
        name_of(a) != name_of(b),
{
    lemma_key_is_quoted(a);
    lemma_key_is_quoted(b);
}

/// A string without quotes and backslashes that is not the name of an object or a field.
pub open spec fn is_value(text: Seq<u8>) -> bool {
    &&& is_unescaped(text)
    &&& forall|key: Seq<u8>| #[trigger] is_known_key(key) ==> text != name_of(key)
}

/// A number as it may be written.
pub open spec fn is_number_text(token: Seq<u8>) -> bool {
    token.len() > 0 && is_number_token(token)
}

/// The value of a field, with numbers and strings as they are written.
pub enum Value {
    /// A number.
    Number(Seq<u8>),
    /// A string.
    Text(Seq<u8>),
    /// A truth value.
    Flag(bool),
    /// An array of strings.
    Texts(Seq<Seq<u8>>),
}

/// A field of an object.
pub struct Entry {
    /// Its quoted name.
    pub key: Seq<u8>,
    /// Its value.
    pub value: Value,
}

/// An object of a body, or `null` in its place.
pub struct Section {
    /// Its quoted name.
    pub key: Seq<u8>,
    /// Its fields, in the order in which they are written.
    pub entries: Option<Seq<Entry>>,
}

/// The field has one of the known names. Numbers are written as numbers, and strings have no quotes
/// and backslashes and are not named like objects or fields.
pub open spec fn is_entry(e: Entry) -> bool {
    &&& is_field_key(e.key)
    &&& match e.value {
        Value::Number(token) => is_number_text(token),
        Value::Text(text) => is_value(text),
        Value::Flag(_) => true,
        Value::Texts(texts) => forall|i: int|
            0 <= i < texts.len() ==> is_value(#[trigger] texts[i]),
    }
}

/// The fields of an object, each name once.
pub open spec fn are_entries(entries: Seq<Entry>) -> bool {
    &&& entries.len() > 0
    &&& forall|i: int| 0 <= i < entries.len() ==> is_entry(#[trigger] entries[i])
    &&& forall|i: int, j: int|
        0 <= i < j < entries.len() ==> (#[trigger] entries[i]).key != (#[trigger] entries[j]).key
}

/// The objects of a body, each name once.
pub open spec fn are_sections(sections: Seq<Section>) -> bool {
    &&& forall|i: int|
        0 <= i < sections.len() ==> is_section_key((#[trigger] sections[i]).key) && (
        sections[i].entries matches Some(entries) ==> are_entries(entries))
    &&& forall|i: int, j: int|
        0 <= i < j < sections.len() ==> (#[trigger] sections[i]).key != (#[trigger] sections[j]).key
}

/// A name and what follows it.
pub open spec fn field(key: Seq<u8>, tail: Seq<u8>) -> Item {
    Item { text: name_of(key), tail }
}

/// A colon.
pub open spec fn colon() -> Seq<u8> {
    seq![58u8]
}

/// A colon, a value, and the byte `end`.
pub open spec fn valued(value: Seq<u8>, end: u8) -> Seq<u8> {
    colon() + value + seq![end]
}

/// How a field is spelled, with the byte `end` behind it.
pub open spec fn entry_items(e: Entry, end: u8) -> Seq<Item> {
    match e.value {
        Value::Number(token) => seq![field(e.key, valued(token, end))],
        Value::Flag(flag) => seq![field(e.key, valued(flag_bytes(flag), end))],
        Value::Text(text) => seq![field(e.key, colon()), Item { text, tail: seq![end] }],
        Value::Texts(texts) => seq![
            field(
                e.key,
                seq![58u8, 91u8] + if texts.len() == 0 {
                    seq![93u8, end]
                } else {
                    Seq::empty()
                },
            ),
        ] + list_items(texts, seq![93u8, end]),
    }
}

/// How fields are spelled, with commas between them and the byte `end` behind the last.
pub open spec fn entries_items(entries: Seq<Entry>, end: u8) -> Seq<Item>
    decreases entries.len(),
{
    if entries.len() == 0 {
        Seq::empty()
    } else if entries.len() == 1 {
        entry_items(entries[0], end)
    } else {
        entry_items(entries[0], 44) + entries_items(entries.drop_first(), end)
    }
}

/// The items with one more byte behind the last.
pub open spec fn extended(items: Seq<Item>, end: u8) -> Seq<Item> {
    items.drop_last().push(Item { text: items.last().text, tail: items.last().tail.push(end) })
}

/// How an object is spelled, with the byte `end` behind it.
pub open spec fn section_items(section: Section, end: u8) -> Seq<Item> {
    match section.entries {
        None => seq![field(section.key, seq![58u8, 110u8, 117u8, 108u8, 108u8, end])],
        Some(entries) => seq![field(section.key, seq![58u8, 123u8])] + extended(
            entries_items(entries, 125),
            end,
        ),
    }
}

/// How objects are spelled, with commas between them and a closing brace behind the last.
pub open spec fn sections_items(sections: Seq<Section>) -> Seq<Item>
    decreases sections.len(),
{
    if sections.len() == 0 {
        Seq::empty()
    } else {
        section_items(
            sections[0],
            if sections.len() == 1 {
                125
            } else {
                44
            },
        ) + sections_items(sections.drop_first())
    }
}

/// A compact body: its objects and their fields in the order given, without blanks.
pub open spec fn compact_body(sections: Seq<Section>) -> Seq<u8> {
    seq![123u8] + spell(sections_items(sections))
}

/// What follows a name, with a value of flat bytes.
proof fn lemma_valued(value: Seq<u8>, end: u8)
    requires
        is_flat(value),
    ensures
        valued(value, end).len() == value.len() + 2,
        valued(value, end)[0] == 58,
        valued(value, end).last() == end,
        is_flat(valued(value, end).drop_last()),
        end == 44 ==> is_flat(valued(value, end)),
        end != 34 ==> forall|i: int|
            0 <= i < valued(value, end).len() ==> #[trigger] valued(value, end)[i] != 34,
{
    let v = valued(value, end);
    assert forall|i: int| 0 <= i < v.len() - 1 implies #[trigger] v[i] != 34 && v[i] != 123
        && v[i] != 125 by {
        if i > 0 {
            assert(v[i] == value[i - 1]);
        }
    }
}

proof fn lemma_number_is_flat(token: Seq<u8>)
    requires
        is_number_token(token),
    ensures
        is_flat(token),
{
    assert forall|i: int| 0 <= i < token.len() implies #[trigger] token[i] != 34 && token[i] != 123
        && token[i] != 125 by {
        assert(ByteSet::Number.holds(token[i]));
    }
}

proof fn lemma_flag_is_flat(flag: bool)
    ensures
        is_flat(flag_bytes(flag)),
{
    lemma_flag_bytes();
}

proof fn lemma_number_in_object(items: Seq<Item>, m: int, key: Seq<u8>, token: Seq<u8>, end: u8)
    requires
        are_items(items),
        is_key(key),
        0 <= m < items.len(),
        items[m] == field(key, valued(token, end)),
        lacks(items.take(m), key),
        is_number_text(token),
        end == 44 || end == 125,
    ensures
        number_field(seq![123u8] + spell(items), key) == Some(token),
{
    let buf = seq![123u8] + spell(items);
    let before = seq![123u8] + spell(items.take(m));
    let rest = spell(items.skip(m + 1));
    let after = seq![end] + rest;
    lemma_first_in_object(items, m, key);
    assert(buf =~= before + key + seq![58u8] + (token + after));
    lemma_number(buf, before, key, token, after);
}

proof fn lemma_flag_in_object(items: Seq<Item>, m: int, key: Seq<u8>, flag: bool, end: u8)
    requires
        are_items(items),
        is_key(key),
        0 <= m < items.len(),
        items[m] == field(key, valued(flag_bytes(flag), end)),
        lacks(items.take(m), key),
    ensures
        flag_field(seq![123u8] + spell(items), key) == Some(flag),
{
    let buf = seq![123u8] + spell(items);
    let before = seq![123u8] + spell(items.take(m));
    let rest = spell(items.skip(m + 1));
    let after = seq![end] + rest;
    lemma_first_in_object(items, m, key);
    assert(buf =~= before + key + seq![58u8] + (flag_bytes(flag) + after));
    lemma_flag(buf, before, key, flag, after);
}

proof fn lemma_text_in_object(items: Seq<Item>, m: int, key: Seq<u8>)
    requires
        are_items(items),
        is_key(key),
        0 <= m < items.len() - 1,
        items[m] == field(key, colon()),
        lacks(items.take(m), key),
    ensures
        text_field(seq![123u8] + spell(items), key) == Some(items[m + 1].text),
{
    let buf = seq![123u8] + spell(items);
    let before = seq![123u8] + spell(items.take(m));
    let others = items.skip(m + 1);
    let text = items[m + 1].text;
    let after = items[m + 1].tail + spell(others.drop_first());
    lemma_first_in_object(items, m, key);
    assert(others[0] == items[m + 1]);
    assert(spell(others) =~= quoted(text) + after);
    assert(buf =~= before + key + seq![58u8] + (quoted(text) + after));
    assert(is_item(items[m + 1]));
    lemma_text(buf, before, key, text, after);
}

/// An array of strings reads back.
proof fn lemma_texts_in_object(
    items: Seq<Item>,
    m: int,
    key: Seq<u8>,
    texts: Seq<Seq<u8>>,
    end: u8,
    rest: Seq<Item>,
)
    requires
        are_items(items),
        is_key(key),
        0 <= m < items.len(),
        items.skip(m) == entry_items(Entry { key, value: Value::Texts(texts) }, end) + rest,
        lacks(items.take(m), key),
        forall|i: int| 0 <= i < texts.len() ==> is_unescaped(#[trigger] texts[i]),
    ensures
        array_field(seq![123u8] + spell(items), key) == texts,
{
    let buf = seq![123u8] + spell(items);
    let before = seq![123u8] + spell(items.take(m));
    let close = seq![93u8, end];
    let list = list_items(texts, close);
    let own = entry_items(Entry { key, value: Value::Texts(texts) }, end);
    assert(items[m] == items.skip(m)[0]);
    assert(items[m] == own[0]);
    lemma_first_in_object(items, m, key);
    assert(items.skip(m + 1) =~= items.skip(m).drop_first());
    assert((own + rest).drop_first() =~= list + rest);
    lemma_spell_concat(list, rest);
    let after = spell(rest);
    if texts.len() == 0 {
        assert(spell(list) =~= Seq::empty());
        assert(buf =~= before + key + seq![58u8, 91u8] + close + after);
    } else {
        assert(buf =~= before + key + seq![58u8, 91u8] + spell(list) + after);
    }
    lemma_array(buf, before, key, texts, close, after);
}

/// The items of a list, one by one.
proof fn lemma_list_items(names: Seq<Seq<u8>>, end: Seq<u8>)
    ensures
        list_items(names, end).len() == names.len(),
        forall|i: int|
            0 <= i < names.len() ==> (#[trigger] list_items(names, end)[i]) == (Item {
                text: names[i],
                tail: if i == names.len() - 1 {
                    end
                } else {
                    seq![44u8]
                },
            }),
    decreases names.len(),
{
    if names.len() > 0 {
        lemma_list_items(names.drop_first(), end);
        assert forall|i: int| 0 <= i < names.len() implies (#[trigger] list_items(names, end)[i])
            == (Item {
            text: names[i],
            tail: if i == names.len() - 1 {
                end
            } else {
                seq![44u8]
            },
        }) by {
            if i > 0 {
                assert(list_items(names, end)[i] == list_items(names.drop_first(), end)[i - 1]);
            }
        }
    }
}

/// None of the strings is the name of an object.
spec fn is_below_sections(items: Seq<Item>) -> bool {
    forall|i: int, key: Seq<u8>|
        0 <= i < items.len() && #[trigger] is_section_key(key) ==> (#[trigger] items[i]).text
            != name_of(key)
}

/// What is true of the items of a field.
spec fn is_inside(items: Seq<Item>, end: u8) -> bool {
    &&& items.len() > 0
    &&& are_items(items)
    &&& is_below_sections(items)
    &&& forall|i: int| 0 <= i < items.len() - 1 ==> is_flat((#[trigger] items[i]).tail)
    &&& items.last().tail.len() > 0
    &&& items.last().tail.last() == end
    &&& is_flat(items.last().tail.drop_last())
}

/// A string of a field is not the name of an object, and among the names of fields only its own.
proof fn lemma_entry_texts(e: Entry, text: Seq<u8>)
    requires
        is_entry(e),
        text == name_of(e.key) || is_value(text),
    ensures
        is_unescaped(text),
        forall|key: Seq<u8>| #[trigger] is_section_key(key) ==> text != name_of(key),
        forall|key: Seq<u8>| #[trigger] is_field_key(key) && key != e.key ==> text != name_of(key),
{
    assert(is_known_key(e.key));
    lemma_known_key(e.key);
    lemma_key_is_quoted(e.key);
    assert forall|key: Seq<u8>| #[trigger] is_section_key(key) implies text != name_of(key) by {
        assert(is_known_key(key));
        lemma_known_key(key);
        lemma_names_differ(e.key, key);
    }
    assert forall|key: Seq<u8>| #[trigger] is_field_key(key) && key != e.key implies text
        != name_of(key) by {
        assert(is_known_key(key));
        lemma_known_key(key);
        lemma_names_differ(e.key, key);
    }
}

/// The items of a field, one by one.
#[verifier::spinoff_prover]
proof fn lemma_entry_items(e: Entry, end: u8)
    requires
        is_entry(e),
        end == 44 || end == 125,
    ensures
        is_inside(entry_items(e, end), end),
        entry_items(e, end)[0].text == name_of(e.key),
        forall|i: int, key: Seq<u8>|
            0 <= i < entry_items(e, end).len() && #[trigger] is_field_key(key) && key != e.key
                ==> (#[trigger] entry_items(e, end)[i]).text != name_of(key),
{
    let items = entry_items(e, end);
    lemma_entry_texts(e, name_of(e.key));
    match e.value {
        Value::Number(token) => {
            lemma_number_is_flat(token);
            lemma_valued(token, end);
        },
        Value::Flag(flag) => {
            lemma_flag_is_flat(flag);
            lemma_valued(flag_bytes(flag), end);
        },
        Value::Text(text) => {
            lemma_entry_texts(e, text);
            assert(items[1].tail.drop_last() =~= Seq::empty());
        },
        Value::Texts(texts) => {
            let close = seq![93u8, end];
            let list = list_items(texts, close);
            lemma_list_items(texts, close);
            assert(close.drop_last() =~= seq![93u8]);
            assert forall|i: int| 1 <= i < items.len() implies #[trigger] items[i] == list[i - 1]
                && is_value(items[i].text) by {
                assert(is_value(texts[i - 1]));
            }
            assert forall|i: int| 1 <= i < items.len() implies is_item(#[trigger] items[i]) by {
                assert(items[i] == list[i - 1]);
                assert(is_value(items[i].text));
            }
            if texts.len() == 0 {
                assert(items[0].tail =~= seq![58u8, 91u8, 93u8, end]);
                assert(items[0].tail.drop_last() =~= seq![58u8, 91u8, 93u8]);
            } else {
                assert(items[0].tail =~= seq![58u8, 91u8]);
                assert(items.last() == list[texts.len() - 1]);
            }
            assert forall|i: int, key: Seq<u8>|
                0 <= i < items.len() && #[trigger] is_section_key(key) implies (
            #[trigger] items[i]).text != name_of(key) by {
                if i > 0 {
                    assert(is_value(items[i].text));
                    assert(is_known_key(key));
                }
            }
            assert forall|i: int, key: Seq<u8>|
                0 <= i < items.len() && #[trigger] is_field_key(key) && key != e.key implies (
            #[trigger] items[i]).text != name_of(key) by {
                if i > 0 {
                    assert(is_value(items[i].text));
                    assert(is_known_key(key));
                }
            }
        },
    }
}

/// Fields one after another.
#[verifier::spinoff_prover]
proof fn lemma_inside_concat(a: Seq<Item>, b: Seq<Item>, end: u8)
    requires
        is_inside(a, 44),
        is_inside(b, end),
    ensures
        is_inside(a + b, end),
{
    let all = a + b;
    let last = a[a.len() - 1].tail;
    assert(is_flat(last)) by {
        assert(a.last() == a[a.len() - 1]);
        assert forall|j: int| 0 <= j < last.len() implies #[trigger] last[j] != 34 && last[j]
            != 123 && last[j] != 125 by {
            if j < last.len() - 1 {
                assert(last.drop_last()[j] == last[j]);
            }
        }
    }
    assert forall|i: int| 0 <= i < all.len() implies is_item(#[trigger] all[i]) by {
        if i < a.len() {
            assert(all[i] == a[i]);
        } else {
            assert(all[i] == b[i - a.len()]);
        }
    }
    assert forall|i: int, key: Seq<u8>|
        0 <= i < all.len() && #[trigger] is_section_key(key) implies (#[trigger] all[i]).text
        != name_of(key) by {
        if i < a.len() {
            assert(all[i] == a[i]);
        } else {
            assert(all[i] == b[i - a.len()]);
        }
    }
    assert forall|i: int| 0 <= i < all.len() - 1 implies is_flat((#[trigger] all[i]).tail) by {
        if i < a.len() {
            assert(all[i] == a[i]);
        } else {
            assert(all[i] == b[i - a.len()]);
        }
    }
    assert(all.last() == b.last());
}

/// The items of the fields of an object.
proof fn lemma_entries_inside(entries: Seq<Entry>, end: u8)
    requires
        entries.len() > 0,
        forall|i: int| 0 <= i < entries.len() ==> is_entry(#[trigger] entries[i]),
        end == 44 || end == 125,
    ensures
        is_inside(entries_items(entries, end), end),
    decreases entries.len(),
{
    assert(is_entry(entries[0]));
    if entries.len() == 1 {
        lemma_entry_items(entries[0], end);
    } else {
        let others = entries.drop_first();
        assert forall|i: int| 0 <= i < others.len() implies is_entry(#[trigger] others[i]) by {
            assert(others[i] == entries[i + 1]);
        }
        lemma_entry_items(entries[0], 44);
        lemma_entries_inside(others, end);
        lemma_inside_concat(entry_items(entries[0], 44), entries_items(others, end), end);
    }
}

/// The byte behind field `j` of an object.
spec fn end_of(entries: Seq<Entry>, j: int) -> u8 {
    if j == entries.len() - 1 {
        125
    } else {
        44
    }
}

/// The items before, of and behind a field; none before has its name.
#[verifier::spinoff_prover]
proof fn lemma_entry_at(entries: Seq<Entry>, j: int) -> (parts: (Seq<Item>, Seq<Item>))
    requires
        are_entries(entries),
        0 <= j < entries.len(),
    ensures
        entries_items(entries, 125) == parts.0 + entry_items(entries[j], end_of(entries, j))
            + parts.1,
        lacks(parts.0, entries[j].key),
    decreases j,
{
    let none = Seq::<Item>::empty();
    if j == 0 {
        let own = entry_items(entries[0], end_of(entries, 0));
        if entries.len() == 1 {
            assert(none + own + none =~= own);
            (none, none)
        } else {
            let rest = entries_items(entries.drop_first(), 125);
            assert(none + own + rest =~= own + rest);
            (none, rest)
        }
    } else {
        let others = entries.drop_first();
        let first = entry_items(entries[0], 44);
        assert(others[j - 1] == entries[j]);
        assert forall|i: int| 0 <= i < others.len() implies is_entry(#[trigger] others[i]) by {
            assert(others[i] == entries[i + 1]);
        }
        assert forall|i: int, k: int| 0 <= i < k < others.len() implies (#[trigger] others[i]).key
            != (#[trigger] others[k]).key by {
            assert(others[i] == entries[i + 1]);
            assert(others[k] == entries[k + 1]);
        }
        let (before, after) = lemma_entry_at(others, j - 1);
        let own = entry_items(entries[j], end_of(entries, j));
        assert(is_entry(entries[0]));
        assert(is_entry(entries[j]));
        lemma_entry_items(entries[0], 44);
        assert(first + (before + own + after) =~= (first + before) + own + after);
        let all = first + before;
        assert forall|i: int| 0 <= i < all.len() implies (#[trigger] all[i]).text != name_of(
            entries[j].key,
        ) by {
            if i < first.len() {
                assert(all[i] == first[i]);
                assert(is_field_key(entries[j].key));
            } else {
                assert(all[i] == before[i - first.len()]);
            }
        }
        (all, after)
    }
}

/// The bytes of an object.
pub open spec fn object_bytes(entries: Seq<Entry>) -> Seq<u8> {
    seq![123u8] + spell(entries_items(entries, 125))
}

/// Reading the field `e` out of `o` gives its value.
spec fn reads_back(o: Seq<u8>, e: Entry) -> bool {
    match e.value {
        Value::Number(token) => number_field(o, e.key) == Some(token),
        Value::Text(text) => text_field(o, e.key) == Some(text),
        Value::Flag(flag) => flag_field(o, e.key) == Some(flag),
        Value::Texts(texts) => array_field(o, e.key) == texts,
    }
}

/// Each field of an object reads back.
#[verifier::spinoff_prover]
proof fn lemma_entry_reads_back(entries: Seq<Entry>, j: int)
    requires
        are_entries(entries),
        0 <= j < entries.len(),
    ensures
        reads_back(object_bytes(entries), entries[j]),
{
    let e = entries[j];
    let end = end_of(entries, j);
    let items = entries_items(entries, 125);
    let own = entry_items(e, end);
    lemma_entries_inside(entries, 125);
    let (before, after) = lemma_entry_at(entries, j);
    let m = before.len() as int;
    assert(is_entry(e));
    assert(is_known_key(e.key));
    lemma_known_key(e.key);
    assert(items.take(m) =~= before);
    assert(items.skip(m) =~= own + after);
    assert(items[m] == own[0]);
    match e.value {
        Value::Number(token) => lemma_number_in_object(items, m, e.key, token, end),
        Value::Flag(flag) => lemma_flag_in_object(items, m, e.key, flag, end),
        Value::Text(text) => {
            assert(items[m + 1] == own[1]);
            lemma_text_in_object(items, m, e.key);
        },
        Value::Texts(texts) => {
            assert forall|i: int| 0 <= i < texts.len() implies is_unescaped(
                #[trigger] texts[i],
            ) by {
                assert(is_value(texts[i]));
            }
            assert(e == (Entry { key: e.key, value: Value::Texts(texts) }));
            lemma_texts_in_object(items, m, e.key, texts, end, after);
        },
    }
}

/// One more byte behind the last item is one more byte behind all of them.
proof fn lemma_extended(items: Seq<Item>, end: u8)
    requires
        items.len() > 0,
    ensures
        spell(extended(items, end)) == spell(items) + seq![end],
{
    let front = items.drop_last();
    let last = items.last();
    let longer = Item { text: last.text, tail: last.tail.push(end) };
    assert(items =~= front + seq![last]);
    assert(extended(items, end) =~= front + seq![longer]);
    lemma_spell_concat(front, seq![last]);
    lemma_spell_concat(front, seq![longer]);
    lemma_spell_single(last);
    lemma_spell_single(longer);
    assert(spell_one(longer) =~= spell_one(last) + seq![end]);
    assert(spell(front) + (spell_one(last) + seq![end]) =~= (spell(front) + spell_one(last))
        + seq![end]);
}

proof fn lemma_items_concat(a: Seq<Item>, b: Seq<Item>)
    requires
        are_items(a),
        are_items(b),
    ensures
        are_items(a + b),
{
    assert forall|i: int| 0 <= i < (a + b).len() implies is_item(#[trigger] (a + b)[i]) by {
        if i < a.len() {
            assert((a + b)[i] == a[i]);
        } else {
            assert((a + b)[i] == b[i - a.len()]);
        }
    }
}

/// The items of an object of a body: only the first has the name of an object, its own.
#[verifier::spinoff_prover]
proof fn lemma_section_items(section: Section, end: u8)
    requires
        is_section_key(section.key),
        section.entries matches Some(entries) ==> are_entries(entries),
        end == 44 || end == 125,
    ensures
        are_items(section_items(section, end)),
        forall|i: int, key: Seq<u8>|
            0 <= i < section_items(section, end).len() && #[trigger] is_section_key(key) && key
                != section.key ==> (#[trigger] section_items(section, end)[i]).text != name_of(key),
{
    let all = section_items(section, end);
    assert(is_known_key(section.key));
    lemma_known_key(section.key);
    lemma_key_is_quoted(section.key);
    assert forall|key: Seq<u8>| #[trigger] is_section_key(key) && key != section.key implies
        name_of(section.key) != name_of(key) by {
        assert(is_known_key(key));
        lemma_known_key(key);
        lemma_names_differ(section.key, key);
    }
    match section.entries {
        None => {
            assert(is_item(all[0]));
        },
        Some(entries) => {
            let items = entries_items(entries, 125);
            let longer = extended(items, end);
            lemma_entries_inside(entries, 125);
            assert(is_item(all[0]));
            assert forall|i: int| 1 <= i < all.len() implies is_item(#[trigger] all[i])
                && all[i].text == items[i - 1].text by {
                assert(all[i] == longer[i - 1]);
                let item = items[i - 1];
                assert(is_item(item));
                if i == all.len() - 1 {
                    assert(items.last() == item);
                    assert(all[i] == (Item { text: item.text, tail: item.tail.push(end) }));
                    assert forall|j: int| 0 <= j < all[i].tail.len() implies
                        #[trigger] all[i].tail[j] != 34 by {
                        if j < item.tail.len() {
                            assert(all[i].tail[j] == item.tail[j]);
                        }
                    }
                } else {
                    assert(longer[i - 1] == item);
                }
            }
            assert forall|i: int, key: Seq<u8>|
                0 <= i < all.len() && #[trigger] is_section_key(key) && key
                    != section.key implies (#[trigger] all[i]).text != name_of(key) by {
                if i > 0 {
                    assert(all[i].text == items[i - 1].text);
                }
            }
        },
    }
}

/// The items of all objects.
proof fn lemma_sections_items(sections: Seq<Section>)
    requires
        are_sections(sections),
    ensures
        are_items(sections_items(sections)),
    decreases sections.len(),
{
    if sections.len() > 0 {
        let others = sections.drop_first();
        let end: u8 = if sections.len() == 1 {
            125
        } else {
            44
        };
        lemma_sections_rest(sections);
        assert(is_section_key(sections[0].key));
        lemma_section_items(sections[0], end);
        lemma_sections_items(others);
        lemma_items_concat(section_items(sections[0], end), sections_items(others));
    }
}

proof fn lemma_sections_rest(sections: Seq<Section>)
    requires
        are_sections(sections),
        sections.len() > 0,
    ensures
        are_sections(sections.drop_first()),
{
    let others = sections.drop_first();
    assert forall|i: int| 0 <= i < others.len() implies is_section_key((#[trigger] others[i]).key)
        && (others[i].entries matches Some(entries) ==> are_entries(entries)) by {
        assert(others[i] == sections[i + 1]);
    }
    assert forall|i: int, k: int| 0 <= i < k < others.len() implies (#[trigger] others[i]).key
        != (#[trigger] others[k]).key by {
        assert(others[i] == sections[i + 1]);
        assert(others[k] == sections[k + 1]);
    }
}

/// The byte behind object `j` of a body.
spec fn section_end(sections: Seq<Section>, j: int) -> u8 {
    if j == sections.len() - 1 {
        125
    } else {
        44
    }
}

/// The items before, of and behind an object; none before has its name.
#[verifier::spinoff_prover]
proof fn lemma_section_at(sections: Seq<Section>, j: int) -> (parts: (Seq<Item>, Seq<Item>))
    requires
        are_sections(sections),
        0 <= j < sections.len(),
    ensures
        sections_items(sections) == parts.0 + section_items(
            sections[j],
            section_end(sections, j),
        ) + parts.1,
        lacks(parts.0, sections[j].key),
    decreases j,
{
    let none = Seq::<Item>::empty();
    let others = sections.drop_first();
    lemma_sections_rest(sections);
    if j == 0 {
        let own = section_items(sections[0], section_end(sections, 0));
        let rest = sections_items(others);
        assert(none + own + rest =~= own + rest);
        (none, rest)
    } else {
        let first = section_items(sections[0], 44);
        assert(others[j - 1] == sections[j]);
        let (before, after) = lemma_section_at(others, j - 1);
        let own = section_items(sections[j], section_end(sections, j));
        assert(is_section_key(sections[0].key));
        assert(is_section_key(sections[j].key));
        lemma_section_items(sections[0], 44);
        assert(first + (before + own + after) =~= (first + before) + own + after);
        let all = first + before;
        assert forall|i: int| 0 <= i < all.len() implies (#[trigger] all[i]).text != name_of(
            sections[j].key,
        ) by {
            if i < first.len() {
                assert(all[i] == first[i]);
            } else {
                assert(all[i] == before[i - first.len()]);
            }
        }
        (all, after)
    }
}

/// Each object of a body reads back, and `null` as no object.
#[verifier::spinoff_prover]
proof fn lemma_section_reads_back(sections: Seq<Section>, j: int)
    requires
        are_sections(sections),
        0 <= j < sections.len(),
    ensures
        object(compact_body(sections), sections[j].key) == match sections[j].entries {
            None => None,
            Some(entries) => Some(object_bytes(entries)),
        },
{
    let section = sections[j];
    let key = section.key;
    let end = section_end(sections, j);
    let items = sections_items(sections);
    let own = section_items(section, end);
    let buf = compact_body(sections);
    lemma_sections_items(sections);
    let (a, b) = lemma_section_at(sections, j);
    let m = a.len() as int;
    assert(is_section_key(key));
    assert(is_known_key(key));
    lemma_known_key(key);
    assert(items.take(m) =~= a);
    assert(items[m] == own[0]);
    lemma_first_in_object(items, m, key);
    let before = seq![123u8] + spell(a);
    match section.entries {
        None => {
            let at = (before.len() + key.len()) as int;
            let tail = own[0].tail;
            assert(buf =~= before + key + tail + spell(items.skip(m + 1)));
            assert(buf[at] == tail[0]);
            assert(buf[at + 1] == tail[1]);
            assert(run_end(buf, at + 1, ByteSet::BlankOrColon) == at + 1);
            assert(run_end(buf, at, ByteSet::BlankOrColon) == at + 1);
        },
        Some(entries) => {
            let inner = entries_items(entries, 125);
            lemma_entries_inside(entries, 125);
            assert(items.skip(m + 1) =~= extended(inner, end) + b);
            lemma_spell_concat(extended(inner, end), b);
            lemma_extended(inner, end);
            let after = seq![end] + spell(b);
            assert(buf =~= before + key + seq![58u8, 123u8] + spell(inner) + after);
            assert forall|i: int| 0 <= i < inner.len() implies is_unescaped(
                (#[trigger] inner[i]).text,
            ) by {
                assert(is_item(inner[i]));
            }
            lemma_object(buf, before, key, inner, after);
        },
    }
}

/// What the objects of a body say.
pub struct Script {
    /// Fields of the transaction.
    pub transaction: Seq<Entry>,
    /// Fields of the customer.
    pub customer: Seq<Entry>,
    /// Fields of the merchant.
    pub merchant: Seq<Entry>,
    /// Fields of the terminal.
    pub terminal: Seq<Entry>,
    /// Fields of the previous transaction.
    pub last: Option<Seq<Entry>>,
}

/// The object named `key` has the fields `entries`.
pub open spec fn has_section(
    sections: Seq<Section>,
    key: &str,
    entries: Option<Seq<Entry>>,
) -> bool {
    sections.contains(Section { key: key.spec_bytes(), entries })
}

/// A body has the objects of a script, in any order.
pub open spec fn is_written(sections: Seq<Section>, s: Script) -> bool {
    &&& are_sections(sections)
    &&& has_section(sections, KEY_TRANSACTION, Some(s.transaction))
    &&& has_section(sections, KEY_CUSTOMER, Some(s.customer))
    &&& has_section(sections, KEY_MERCHANT, Some(s.merchant))
    &&& has_section(sections, KEY_TERMINAL, Some(s.terminal))
    &&& has_section(sections, KEY_LAST_TRANSACTION, s.last)
}

/// The field named `key` has the value `value`.
pub open spec fn has_entry(entries: Seq<Entry>, key: &str, value: Value) -> bool {
    entries.contains(Entry { key: key.spec_bytes(), value })
}

/// The objects say what `f` says, with their fields in any order. The merchant's identifier is `id`
/// and the customer has dealt with `known`.
pub open spec fn states(
    s: Script,
    f: Fields<Seq<u8>>,
    id: Seq<u8>,
    known: Seq<Seq<u8>>,
) -> bool {
    &&& has_entry(s.transaction, KEY_AMOUNT, Value::Number(f.amount))
    &&& has_entry(s.transaction, KEY_INSTALLMENTS, Value::Number(f.installments))
    &&& has_entry(s.transaction, KEY_REQUESTED_AT, Value::Text(f.requested_at))
    &&& has_entry(s.customer, KEY_AVG_AMOUNT, Value::Number(f.avg_amount))
    &&& has_entry(s.customer, KEY_TX_COUNT_24H, Value::Number(f.tx_count_24h))
    &&& has_entry(s.customer, KEY_KNOWN_MERCHANTS, Value::Texts(known))
    &&& has_entry(s.merchant, KEY_ID, Value::Text(id))
    &&& has_entry(s.merchant, KEY_MCC, Value::Text(f.mcc))
    &&& has_entry(s.merchant, KEY_AVG_AMOUNT, Value::Number(f.merchant_avg_amount))
    &&& has_entry(s.terminal, KEY_IS_ONLINE, Value::Flag(f.is_online))
    &&& has_entry(s.terminal, KEY_CARD_PRESENT, Value::Flag(f.card_present))
    &&& has_entry(s.terminal, KEY_KM_FROM_HOME, Value::Number(f.km_from_home))
    &&& f.known_merchant == known.contains(id)
    &&& match f.last {
        LastFields::Absent => s.last is None,
        LastFields::Incomplete => false,
        LastFields::Found { timestamp, km_from_current } => {
            &&& s.last is Some
            &&& has_entry(s.last->0, KEY_TIMESTAMP, Value::Text(timestamp))
            &&& has_entry(s.last->0, KEY_KM_FROM_CURRENT, Value::Number(km_from_current))
        },
    }
}

/// An object of a body reads back.
proof fn lemma_object_of(sections: Seq<Section>, key: &str, entries: Option<Seq<Entry>>)
    requires
        are_sections(sections),
        has_section(sections, key, entries),
    ensures
        object(compact_body(sections), key.spec_bytes()) == match entries {
            None => None,
            Some(entries) => Some(object_bytes(entries)),
        },
        entries matches Some(entries) ==> are_entries(entries),
{
    let section = Section { key: key.spec_bytes(), entries };
    let j = choose|j: int| 0 <= j < sections.len() && sections[j] == section;
    lemma_section_reads_back(sections, j);
    assert(is_section_key(sections[j].key));
}

/// A field of an object reads back.
proof fn lemma_field_of(entries: Seq<Entry>, key: &str, value: Value)
    requires
        are_entries(entries),
        has_entry(entries, key, value),
    ensures
        reads_back(object_bytes(entries), Entry { key: key.spec_bytes(), value }),
{
    let e = Entry { key: key.spec_bytes(), value };
    let j = choose|j: int| 0 <= j < entries.len() && entries[j] == e;
    lemma_entry_reads_back(entries, j);
}

/// The fields of a transaction read back.
#[verifier::spinoff_prover]
proof fn lemma_transaction(entries: Seq<Entry>, f: Fields<Seq<u8>>)
    requires
        are_entries(entries),
        has_entry(entries, KEY_AMOUNT, Value::Number(f.amount)),
        has_entry(entries, KEY_INSTALLMENTS, Value::Number(f.installments)),
        has_entry(entries, KEY_REQUESTED_AT, Value::Text(f.requested_at)),
    ensures
        number_field(object_bytes(entries), KEY_AMOUNT.spec_bytes()) == Some(f.amount),
        number_field(object_bytes(entries), KEY_INSTALLMENTS.spec_bytes()) == Some(f.installments),
        text_field(object_bytes(entries), KEY_REQUESTED_AT.spec_bytes()) == Some(f.requested_at),
{
    lemma_field_of(entries, KEY_AMOUNT, Value::Number(f.amount));
    lemma_field_of(entries, KEY_INSTALLMENTS, Value::Number(f.installments));
    lemma_field_of(entries, KEY_REQUESTED_AT, Value::Text(f.requested_at));
}

/// The fields of a customer read back.
#[verifier::spinoff_prover]
proof fn lemma_customer(entries: Seq<Entry>, f: Fields<Seq<u8>>, known: Seq<Seq<u8>>)
    requires
        are_entries(entries),
        has_entry(entries, KEY_AVG_AMOUNT, Value::Number(f.avg_amount)),
        has_entry(entries, KEY_TX_COUNT_24H, Value::Number(f.tx_count_24h)),
        has_entry(entries, KEY_KNOWN_MERCHANTS, Value::Texts(known)),
    ensures
        number_field(object_bytes(entries), KEY_AVG_AMOUNT.spec_bytes()) == Some(f.avg_amount),
        number_field(object_bytes(entries), KEY_TX_COUNT_24H.spec_bytes()) == Some(f.tx_count_24h),
        array_field(object_bytes(entries), KEY_KNOWN_MERCHANTS.spec_bytes()) == known,
{
    lemma_field_of(entries, KEY_AVG_AMOUNT, Value::Number(f.avg_amount));
    lemma_field_of(entries, KEY_TX_COUNT_24H, Value::Number(f.tx_count_24h));
    lemma_field_of(entries, KEY_KNOWN_MERCHANTS, Value::Texts(known));
}

/// The fields of a merchant read back.
#[verifier::spinoff_prover]
proof fn lemma_merchant(entries: Seq<Entry>, f: Fields<Seq<u8>>, id: Seq<u8>)
    requires
        are_entries(entries),
        has_entry(entries, KEY_ID, Value::Text(id)),
        has_entry(entries, KEY_MCC, Value::Text(f.mcc)),
        has_entry(entries, KEY_AVG_AMOUNT, Value::Number(f.merchant_avg_amount)),
    ensures
        text_field(object_bytes(entries), KEY_ID.spec_bytes()) == Some(id),
        text_field(object_bytes(entries), KEY_MCC.spec_bytes()) == Some(f.mcc),
        number_field(object_bytes(entries), KEY_AVG_AMOUNT.spec_bytes()) == Some(
            f.merchant_avg_amount,
        ),
{
    lemma_field_of(entries, KEY_ID, Value::Text(id));
    lemma_field_of(entries, KEY_MCC, Value::Text(f.mcc));
    lemma_field_of(entries, KEY_AVG_AMOUNT, Value::Number(f.merchant_avg_amount));
}

/// The fields of a terminal read back.
#[verifier::spinoff_prover]
proof fn lemma_terminal(entries: Seq<Entry>, f: Fields<Seq<u8>>)
    requires
        are_entries(entries),
        has_entry(entries, KEY_IS_ONLINE, Value::Flag(f.is_online)),
        has_entry(entries, KEY_CARD_PRESENT, Value::Flag(f.card_present)),
        has_entry(entries, KEY_KM_FROM_HOME, Value::Number(f.km_from_home)),
    ensures
        flag_field(object_bytes(entries), KEY_IS_ONLINE.spec_bytes()) == Some(f.is_online),
        flag_field(object_bytes(entries), KEY_CARD_PRESENT.spec_bytes()) == Some(f.card_present),
        number_field(object_bytes(entries), KEY_KM_FROM_HOME.spec_bytes()) == Some(f.km_from_home),
{
    lemma_field_of(entries, KEY_IS_ONLINE, Value::Flag(f.is_online));
    lemma_field_of(entries, KEY_CARD_PRESENT, Value::Flag(f.card_present));
    lemma_field_of(entries, KEY_KM_FROM_HOME, Value::Number(f.km_from_home));
}

/// The fields of a previous transaction read back.
#[verifier::spinoff_prover]
proof fn lemma_previous(entries: Seq<Entry>, timestamp: Seq<u8>, km: Seq<u8>)
    requires
        are_entries(entries),
        has_entry(entries, KEY_TIMESTAMP, Value::Text(timestamp)),
        has_entry(entries, KEY_KM_FROM_CURRENT, Value::Number(km)),
    ensures
        text_field(object_bytes(entries), KEY_TIMESTAMP.spec_bytes()) == Some(timestamp),
        number_field(object_bytes(entries), KEY_KM_FROM_CURRENT.spec_bytes()) == Some(km),
{
    lemma_field_of(entries, KEY_TIMESTAMP, Value::Text(timestamp));
    lemma_field_of(entries, KEY_KM_FROM_CURRENT, Value::Number(km));
}

/// The previous transaction reads back.
#[verifier::spinoff_prover]
proof fn lemma_last_reads_back(
    sections: Seq<Section>,
    s: Script,
    f: Fields<Seq<u8>>,
    id: Seq<u8>,
    known: Seq<Seq<u8>>,
)
    requires
        is_written(sections, s),
        states(s, f, id, known),
    ensures
        last_fields_of(compact_body(sections)) == f.last,
{
    lemma_object_of(sections, KEY_LAST_TRANSACTION, s.last);
    if let LastFields::Found { timestamp, km_from_current } = f.last {
        lemma_previous(s.last->0, timestamp, km_from_current);
    }
}

/// The four objects read back.
#[verifier::spinoff_prover]
proof fn lemma_objects_read_back(sections: Seq<Section>, s: Script)
    requires
        is_written(sections, s),
    ensures
        object(compact_body(sections), KEY_TRANSACTION.spec_bytes()) == Some(
            object_bytes(s.transaction),
        ),
        object(compact_body(sections), KEY_CUSTOMER.spec_bytes()) == Some(
            object_bytes(s.customer),
        ),
        object(compact_body(sections), KEY_MERCHANT.spec_bytes()) == Some(
            object_bytes(s.merchant),
        ),
        object(compact_body(sections), KEY_TERMINAL.spec_bytes()) == Some(
            object_bytes(s.terminal),
        ),
        are_entries(s.transaction),
        are_entries(s.customer),
        are_entries(s.merchant),
        are_entries(s.terminal),
{
    lemma_object_of(sections, KEY_TRANSACTION, Some(s.transaction));
    lemma_object_of(sections, KEY_CUSTOMER, Some(s.customer));
    lemma_object_of(sections, KEY_MERCHANT, Some(s.merchant));
    lemma_object_of(sections, KEY_TERMINAL, Some(s.terminal));
}

/// What the four objects say is read out of them.
#[verifier::spinoff_prover]
proof fn lemma_fields_in(s: Script, f: Fields<Seq<u8>>, id: Seq<u8>, known: Seq<Seq<u8>>)
    requires
        are_entries(s.transaction),
        are_entries(s.customer),
        are_entries(s.merchant),
        are_entries(s.terminal),
        states(s, f, id, known),
    ensures
        fields_in(
            object_bytes(s.transaction),
            object_bytes(s.customer),
            object_bytes(s.merchant),
            object_bytes(s.terminal),
            f.last,
        ) == Some(f),
{
    lemma_transaction(s.transaction, f);
    lemma_customer(s.customer, f, known);
    lemma_merchant(s.merchant, f, id);
    lemma_terminal(s.terminal, f);
}

/// What is written in a compact body, in whatever order, is what is read out of it.
#[verifier::spinoff_prover]
pub proof fn law_compact_bodies_read_back(
    sections: Seq<Section>,
    s: Script,
    f: Fields<Seq<u8>>,
    id: Seq<u8>,
    known: Seq<Seq<u8>>,
)
    requires
        is_written(sections, s),
        states(s, f, id, known),
    ensures
        fields_of(compact_body(sections)) == Some(f),
{
    lemma_objects_read_back(sections, s);
    lemma_last_reads_back(sections, s, f, id, known);
    lemma_fields_in(s, f, id, known);
}

/// How the numbers of a payload are written.
pub struct NumberTexts {
    /// Amount of the transaction.
    pub amount: Seq<u8>,
    /// Number of installments.
    pub installments: Seq<u8>,
    /// Customer's average amount.
    pub avg_amount: Seq<u8>,
    /// Customer's transactions within a day.
    pub tx_count_24h: Seq<u8>,
    /// Merchant's average amount.
    pub merchant_avg_amount: Seq<u8>,
    /// Distance from the customer's home.
    pub km_from_home: Seq<u8>,
    /// Distance from the previous transaction.
    pub km_from_current: Seq<u8>,
}

/// The merchants that a payload's customer has dealt with, as they are written.
pub open spec fn known_bytes<N>(p: Payload<N>) -> Seq<Seq<u8>> {
    Seq::new(
        p.customer.known_merchants@.len(),
        |i: int| encode_utf8(p.customer.known_merchants@[i]@),
    )
}

/// What a body says that is written from a payload, with its numbers as in `w`.
pub open spec fn fields_from<N>(p: Payload<N>, w: NumberTexts) -> Fields<Seq<u8>> {
    Fields {
        amount: w.amount,
        installments: w.installments,
        requested_at: encode_utf8(p.transaction.requested_at@),
        avg_amount: w.avg_amount,
        tx_count_24h: w.tx_count_24h,
        known_merchant: known_bytes(p).contains(encode_utf8(p.merchant.id@)),
        mcc: encode_utf8(p.merchant.mcc@),
        merchant_avg_amount: w.merchant_avg_amount,
        is_online: p.terminal.is_online,
        card_present: p.terminal.card_present,
        km_from_home: w.km_from_home,
        last: match p.last_transaction {
            None => LastFields::Absent,
            Some(l) => LastFields::Found {
                timestamp: encode_utf8(l.timestamp@),
                km_from_current: w.km_from_current,
            },
        },
    }
}

/// The numbers read are those of the payload; its two counts were read as some number.
pub open spec fn are_numbers_of<N>(n: Numbers<N>, p: Payload<N>) -> bool {
    &&& n.are_present()
    &&& n.amount == Some(p.transaction.amount)
    &&& n.avg_amount == Some(p.customer.avg_amount)
    &&& n.merchant_avg_amount == Some(p.merchant.avg_amount)
    &&& n.km_from_home == Some(p.terminal.km_from_home)
    &&& p.last_transaction matches Some(l) ==> n.km_from_current == Some(l.km_from_current)
}

/// A merchant is known by its bytes as by its name.
pub proof fn lemma_known<N>(p: Payload<N>)
    ensures
        known_bytes(p).contains(encode_utf8(p.merchant.id@)) == is_named(
            p.customer.known_merchants@,
            p.merchant.id@,
        ),
{
    let names = p.customer.known_merchants@;
    let spelled = known_bytes(p);
    let id = p.merchant.id@;
    if spelled.contains(encode_utf8(id)) {
        let i = choose|i: int| 0 <= i < spelled.len() && spelled[i] == encode_utf8(id);
        vstd::utf8::encode_utf8_decode_utf8(id);
        vstd::utf8::encode_utf8_decode_utf8(names[i]@);
        assert(names[i]@ == id);
    }
    if is_named(names, id) {
        let i = choose|i: int| 0 <= i < names.len() && (#[trigger] names[i])@ == id;
        assert(spelled[i] == encode_utf8(id));
    }
}

/// A compact body written from a payload, its objects and fields in any order, says what the
/// payload says: where its numbers read as those of the payload, the two have the same features.
/// Only the two counts are written differently: whole numbers in the payload, numbers as read in
/// the body.
pub proof fn law_compact_body_and_payload_agree<N, R>(
    sections: Seq<Section>,
    s: Script,
    p: Payload<N>,
    w: NumberTexts,
    n: Numbers<N>,
    table: Map<Seq<char>, R>,
)
    requires
        is_written(sections, s),
        states(s, fields_from(p, w), encode_utf8(p.merchant.id@), known_bytes(p)),
        are_numbers_of(n, p),
    ensures
        ({
            let f = fields_of(compact_body(sections));
            &&& f == Some(fields_from(p, w))
            &&& describes(f->0, n, p)
            &&& facts_of(f->0, n) is Some
            &&& forall|i: int|
                0 <= i < DIM && i != 1 && i != 8 ==> #[trigger] features_of(
                    facts_of(f->0, n)->0,
                    risk_of(table, f->0.mcc),
                )[i] == features_of(p.facts(), risk_of(table, encode_utf8(p.merchant.mcc@)))[i]
        }),
{
    let f = fields_from(p, w);
    law_compact_bodies_read_back(sections, s, f, encode_utf8(p.merchant.id@), known_bytes(p));
    lemma_known(p);
    assert(describes(f, n, p));
    law_body_and_payload_agree(f, n, p, table);
}

} // verus!
