//! Written bodies: how a transaction is spelled, with any blanks, in any order and among other
//! entries, and that it reads back.

use vstd::prelude::*;
use vstd::string::StringSliceAdditionalSpecFns;
use vstd::utf8::encode_utf8;
use crate::compact::{
    are_numbers_of,
    fields_from,
    is_field_key,
    is_known_key,
    is_number_text,
    is_section_key,
    is_value,
    known_bytes,
    lemma_known,
    lemma_known_key,
    lemma_names_differ,
    NumberTexts,
    Value,
};
use crate::items::{
    flag_bytes,
    is_key,
    is_name_byte,
    is_unescaped,
    lacks,
    lemma_flag_bytes,
    lemma_key_is_quoted,
    lemma_spell_concat,
    lemma_spell_single,
    name_of,
    quoted,
    spell,
    spell_one,
    Item,
};
use crate::ivf::DIM;
use crate::parser::{
    array_field,
    describes,
    facts_of,
    fields_in,
    fields_of,
    flag_field,
    is_number_token,
    last_fields_of,
    law_body_and_payload_agree,
    number_field,
    object,
    text_field,
    Fields,
    LastFields,
    Numbers,
    KEY_AMOUNT,
    KEY_AVG_AMOUNT,
    KEY_CARD_PRESENT,
    KEY_CUSTOMER,
    KEY_ID,
    KEY_INSTALLMENTS,
    KEY_IS_ONLINE,
    KEY_KM_FROM_CURRENT,
    KEY_KM_FROM_HOME,
    KEY_KNOWN_MERCHANTS,
    KEY_LAST_TRANSACTION,
    KEY_MCC,
    KEY_MERCHANT,
    KEY_REQUESTED_AT,
    KEY_TERMINAL,
    KEY_TIMESTAMP,
    KEY_TRANSACTION,
    KEY_TX_COUNT_24H,
};
use crate::pieces::{
    are_pieces,
    is_blank,
    is_braceless,
    is_colons,
    is_gap,
    is_level,
    is_object_text,
    is_piece,
    is_quoteless,
    is_string,
    lemma_array,
    lemma_braceless_is_level,
    lemma_first_behind,
    lemma_flag,
    lemma_level_concat,
    lemma_nowhere,
    lemma_number,
    lemma_object,
    lemma_tails_concat,
    lemma_tails_single,
    lemma_text,
    lemma_unescaped_is_string,
    list_pieces,
    tails,
};
use crate::scan::{first_occurrence, run_end, ByteSet};
use crate::vectorizer::{features_of, risk_of, Payload};

verus! {

/// What is written around a value.
pub struct Layout {
    /// Blanks before the colon.
    pub a: Seq<u8>,
    /// Blanks behind the colon.
    pub b: Seq<u8>,
    /// Blanks behind the bracket that opens an array.
    pub open: Seq<u8>,
    /// Comma and blanks between the strings of an array.
    pub sep: Seq<u8>,
    /// Blanks before the bracket that closes an array.
    pub close: Seq<u8>,
    /// Comma and blanks behind the value.
    pub glue: Seq<u8>,
}

/// A field of an object.
pub struct Entry {
    /// Its quoted name.
    pub key: Seq<u8>,
    /// Its value.
    pub value: Value,
    /// What is written around the value.
    pub layout: Layout,
}

/// What an object is made of.
pub enum Member {
    /// A field with one of the known names.
    Known(Entry),
    /// Anything else: strings, and what stands behind each of them.
    Other(Seq<Item>),
}

/// An object.
pub struct Object {
    /// Blanks behind its opening brace.
    pub lead: Seq<u8>,
    /// Its members, in the order in which they are written.
    pub members: Seq<Member>,
}

/// What a body is made of.
pub enum Part {
    /// One of the known objects, or `null` in its place, with its quoted name, the colon and blanks
    /// behind it, and what follows it.
    Known { key: Seq<u8>, a: Seq<u8>, object: Option<Object>, glue: Seq<u8> },
    /// Anything else: strings, and what stands behind each of them.
    Other(Seq<Item>),
}

/// Commas and blanks.
pub open spec fn is_glue(s: Seq<u8>) -> bool {
    forall|i: int|
        0 <= i < s.len() ==> #[trigger] s[i] == 44 || s[i] == 32 || s[i] == 9 || s[i] == 13
            || s[i] == 10
}

/// The field has one of the known names. Numbers are written as numbers, and strings have no quotes
/// and backslashes and are not named like objects or fields. Blanks stand where they may: before
/// an array only spaces and tabs.
pub open spec fn is_entry(e: Entry) -> bool {
    &&& is_field_key(e.key)
    &&& is_blank(e.layout.a)
    &&& is_blank(e.layout.b)
    &&& is_glue(e.layout.glue)
    &&& match e.value {
        Value::Number(token) => is_number_text(token),
        Value::Text(text) => is_value(text),
        Value::Flag(_) => true,
        Value::Texts(texts) => {
            &&& forall|i: int| 0 <= i < texts.len() ==> is_value(#[trigger] texts[i])
            &&& is_gap(e.layout.a)
            &&& is_gap(e.layout.b)
            &&& is_blank(e.layout.open)
            &&& is_blank(e.layout.close)
            &&& is_glue(e.layout.sep)
            &&& e.layout.sep.len() > 0
        },
    }
}

/// A name and what follows it.
pub open spec fn field(key: Seq<u8>, tail: Seq<u8>) -> Item {
    Item { text: name_of(key), tail }
}

/// A colon with blanks around it, and what follows.
pub open spec fn colon(l: Layout, rest: Seq<u8>) -> Seq<u8> {
    l.a + (seq![58u8] + (l.b + rest))
}

/// How a field is spelled.
pub open spec fn entry_items(e: Entry) -> Seq<Item> {
    let l = e.layout;
    match e.value {
        Value::Number(token) => seq![field(e.key, colon(l, token + l.glue))],
        Value::Flag(flag) => seq![field(e.key, colon(l, flag_bytes(flag) + l.glue))],
        Value::Text(text) => seq![
            field(e.key, colon(l, Seq::empty())),
            Item { text, tail: l.glue },
        ],
        Value::Texts(texts) => if texts.len() == 0 {
            seq![
                field(
                    e.key,
                    colon(l, seq![91u8] + (l.open + (l.close + (seq![93u8] + l.glue)))),
                ),
            ]
        } else {
            seq![field(e.key, colon(l, seq![91u8] + l.open))] + list_pieces(
                texts,
                l.sep,
                l.close + (seq![93u8] + l.glue),
            )
        },
    }
}

/// How a member is spelled.
pub open spec fn member_items(m: Member) -> Seq<Item> {
    match m {
        Member::Known(e) => entry_items(e),
        Member::Other(items) => items,
    }
}

/// How members are spelled, one after another.
pub open spec fn members_items(ms: Seq<Member>) -> Seq<Item>
    decreases ms.len(),
{
    if ms.len() == 0 {
        Seq::empty()
    } else {
        member_items(ms[0]) + members_items(ms.drop_first())
    }
}

/// Strings that are not named like objects or fields, with no quotes behind them. Something stands
/// behind each of them, not beginning like a name; behind the last one only where `more` follows.
pub open spec fn are_loose(items: Seq<Item>, more: bool) -> bool {
    forall|i: int|
        0 <= i < items.len() ==> {
            let item = #[trigger] items[i];
            &&& is_unescaped(item.text)
            &&& is_quoteless(item.tail)
            &&& item.tail.len() > 0 ==> !is_name_byte(item.tail[0])
            &&& i < items.len() - 1 || more ==> item.tail.len() > 0
        }
}

/// A member as it may be written; `more` follow it. Whatever else an object holds has none of the
/// known names, and closes the braces that it opens.
pub open spec fn is_member(m: Member, more: bool) -> bool {
    match m {
        Member::Known(e) => is_entry(e) && (more ==> e.layout.glue.len() > 0),
        Member::Other(items) => {
            &&& items.len() > 0
            &&& are_loose(items, more)
            &&& is_level(tails(items))
            &&& forall|i: int| 0 <= i < items.len() ==> is_value((#[trigger] items[i]).text)
        },
    }
}

/// The members of an object, each known name at most once.
pub open spec fn are_members(ms: Seq<Member>) -> bool {
    &&& ms.len() > 0
    &&& forall|i: int| 0 <= i < ms.len() ==> is_member(#[trigger] ms[i], i < ms.len() - 1)
    &&& forall|i: int, j: int|
        0 <= i < j < ms.len() ==> match (#[trigger] ms[i], #[trigger] ms[j]) {
            (Member::Known(e), Member::Known(f)) => e.key != f.key,
            _ => true,
        }
}

/// The items with more bytes behind the last.
pub open spec fn extended(items: Seq<Item>, end: Seq<u8>) -> Seq<Item> {
    items.drop_last().push(Item { text: items.last().text, tail: items.last().tail + end })
}

/// The inside of an object, with its closing brace.
pub open spec fn inside_of(o: Object) -> Seq<Item> {
    extended(members_items(o.members), seq![125u8])
}

/// The bytes of an object.
pub open spec fn object_bytes(o: Object) -> Seq<u8> {
    seq![123u8] + o.lead + spell(inside_of(o))
}

/// An object as it may be written.
pub open spec fn is_object(o: Object) -> bool {
    is_blank(o.lead) && are_members(o.members)
}

/// How a part of a body is spelled.
pub open spec fn part_items(part: Part) -> Seq<Item> {
    match part {
        Part::Known { key, a, object, glue } => match object {
            None => seq![field(key, a + (seq![110u8, 117u8, 108u8, 108u8] + glue))],
            Some(o) => seq![field(key, a + (seq![123u8] + o.lead))] + extended(inside_of(o), glue),
        },
        Part::Other(items) => items,
    }
}

/// A part as it may be written. Whatever else a body holds has none of the names of the known
/// objects.
pub open spec fn is_part(part: Part) -> bool {
    match part {
        Part::Known { key, a, object, glue } => {
            &&& is_section_key(key)
            &&& is_colons(a)
            &&& a.len() > 0
            &&& is_quoteless(glue)
            &&& object matches Some(o) ==> is_object(o)
        },
        Part::Other(items) => are_pieces(items) && forall|i: int, key: Seq<u8>|
            0 <= i < items.len() && #[trigger] is_section_key(key) ==> (#[trigger] items[i]).text
                != name_of(key),
    }
}

/// The parts of a body, each known object at most once.
pub open spec fn are_parts(parts: Seq<Part>) -> bool {
    &&& forall|i: int| 0 <= i < parts.len() ==> is_part(#[trigger] parts[i])
    &&& forall|i: int, j: int|
        0 <= i < j < parts.len() ==> match (#[trigger] parts[i], #[trigger] parts[j]) {
            (Part::Known { key: k, .. }, Part::Known { key: l, .. }) => k != l,
            _ => true,
        }
}

/// How parts are spelled, one after another.
pub open spec fn parts_items(parts: Seq<Part>) -> Seq<Item>
    decreases parts.len(),
{
    if parts.len() == 0 {
        Seq::empty()
    } else {
        part_items(parts[0]) + parts_items(parts.drop_first())
    }
}

/// A body: what stands before its first quote, and its parts in the order given.
pub open spec fn written_body(lead: Seq<u8>, parts: Seq<Part>) -> Seq<u8> {
    lead + spell(parts_items(parts))
}

proof fn lemma_number_is_plain(token: Seq<u8>)
    requires
        is_number_token(token),
    ensures
        is_braceless(token),
        is_quoteless(token),
{
    assert forall|i: int| 0 <= i < token.len() implies #[trigger] token[i] != 34 && token[i] != 123
        && token[i] != 125 by {
        assert(ByteSet::Number.holds(token[i]));
    }
}

proof fn lemma_flag_is_plain(flag: bool)
    ensures
        is_braceless(flag_bytes(flag)),
        is_quoteless(flag_bytes(flag)),
{
    lemma_flag_bytes();
}

/// Neither quotes nor braces.
spec fn is_plain(s: Seq<u8>) -> bool {
    is_braceless(s) && is_quoteless(s)
}

proof fn lemma_plain_concat(a: Seq<u8>, b: Seq<u8>)
    requires
        is_plain(a),
        is_plain(b),
    ensures
        is_plain(a + b),
{
    let s = a + b;
    assert forall|i: int| 0 <= i < s.len() implies #[trigger] s[i] != 34 && s[i] != 123 && s[i]
        != 125 by {
        if i < a.len() {
            assert(s[i] == a[i]);
        } else {
            assert(s[i] == b[i - a.len()]);
        }
    }
}

/// What stands between a name and its value.
proof fn lemma_colon(l: Layout, rest: Seq<u8>)
    requires
        is_blank(l.a),
        is_blank(l.b),
        is_plain(rest),
    ensures
        is_plain(colon(l, rest)),
        colon(l, rest).len() > 0,
        !is_name_byte(colon(l, rest)[0]),
{
    lemma_plain_concat(l.b, rest);
    lemma_plain_concat(seq![58u8], l.b + rest);
    lemma_plain_concat(l.a, seq![58u8] + (l.b + rest));
    if l.a.len() > 0 {
        assert(colon(l, rest)[0] == l.a[0]);
    } else {
        assert(colon(l, rest)[0] == 58);
    }
}

/// The items of a list, one by one.
proof fn lemma_list_items(names: Seq<Seq<u8>>, sep: Seq<u8>, end: Seq<u8>)
    ensures
        list_pieces(names, sep, end).len() == names.len(),
        forall|i: int|
            0 <= i < names.len() ==> (#[trigger] list_pieces(names, sep, end)[i]) == (Item {
                text: names[i],
                tail: if i == names.len() - 1 {
                    end
                } else {
                    sep
                },
            }),
    decreases names.len(),
{
    if names.len() > 0 {
        lemma_list_items(names.drop_first(), sep, end);
        assert forall|i: int| 0 <= i < names.len() implies (#[trigger] list_pieces(
            names,
            sep,
            end,
        )[i]) == (Item {
            text: names[i],
            tail: if i == names.len() - 1 {
                end
            } else {
                sep
            },
        }) by {
            if i > 0 {
                assert(list_pieces(names, sep, end)[i] == list_pieces(
                    names.drop_first(),
                    sep,
                    end,
                )[i - 1]);
            }
        }
    }
}

/// Where nothing behind the strings has braces, the whole has none.
proof fn lemma_tails_braceless(items: Seq<Item>)
    requires
        forall|i: int| 0 <= i < items.len() ==> is_braceless((#[trigger] items[i]).tail),
    ensures
        is_braceless(tails(items)),
    decreases items.len(),
{
    if items.len() > 0 {
        let others = items.drop_first();
        assert forall|i: int| 0 <= i < others.len() implies is_braceless(
            (#[trigger] others[i]).tail,
        ) by {
            assert(others[i] == items[i + 1]);
        }
        lemma_tails_braceless(others);
        let a = items[0].tail;
        let b = tails(others);
        assert forall|i: int| 0 <= i < (a + b).len() implies #[trigger] (a + b)[i] != 123 && (a
            + b)[i] != 125 by {
            if i < a.len() {
                assert((a + b)[i] == a[i]);
            } else {
                assert((a + b)[i] == b[i - a.len()]);
            }
        }
    }
}

/// None of the strings is the name of an object, and among the names of fields only `own`.
spec fn is_named_only(items: Seq<Item>, own: Option<Seq<u8>>) -> bool {
    &&& forall|i: int, key: Seq<u8>|
        0 <= i < items.len() && #[trigger] is_section_key(key) ==> (#[trigger] items[i]).text
            != name_of(key)
    &&& forall|i: int, key: Seq<u8>|
        0 <= i < items.len() && #[trigger] is_field_key(key) && own != Some(key) ==> (
        #[trigger] items[i]).text != name_of(key)
}

/// What is true of the items of a member.
spec fn is_inside(items: Seq<Item>, own: Option<Seq<u8>>, more: bool) -> bool {
    &&& items.len() > 0
    &&& are_loose(items, more)
    &&& is_level(tails(items))
    &&& is_named_only(items, own)
}

/// A string of a field is not the name of an object, and among the names of fields only its own.
proof fn lemma_entry_texts(e: Entry, text: Seq<u8>)
    requires
        is_entry(e),
        text == name_of(e.key) || is_value(text),
    ensures
        is_unescaped(text),
        forall|key: Seq<u8>| #[trigger] is_section_key(key) ==> text != name_of(key),
        forall|key: Seq<u8>| #[trigger] is_field_key(key) && key != e.key ==> text != name_of(key),
{
    assert(is_known_key(e.key));
    lemma_known_key(e.key);
    lemma_key_is_quoted(e.key);
    assert forall|key: Seq<u8>| #[trigger] is_section_key(key) implies text != name_of(key) by {
        assert(is_known_key(key));
        lemma_known_key(key);
        lemma_names_differ(e.key, key);
    }
    assert forall|key: Seq<u8>| #[trigger] is_field_key(key) && key != e.key implies text
        != name_of(key) by {
        assert(is_known_key(key));
        lemma_known_key(key);
        lemma_names_differ(e.key, key);
    }
}

/// Items that are plain one by one are those of a member.
#[verifier::spinoff_prover]
proof fn lemma_plain_items(e: Entry, items: Seq<Item>, more: bool)
    requires
        is_entry(e),
        items.len() > 0,
        forall|i: int|
            0 <= i < items.len() ==> {
                let item = #[trigger] items[i];
                &&& item.text == name_of(e.key) || is_value(item.text)
                &&& is_plain(item.tail)
                &&& item.tail.len() > 0 ==> !is_name_byte(item.tail[0])
                &&& i < items.len() - 1 || more ==> item.tail.len() > 0
            },
    ensures
        is_inside(items, Some(e.key), more),
{
    assert forall|i: int| 0 <= i < items.len() implies is_unescaped((#[trigger] items[i]).text) by {
        lemma_entry_texts(e, items[i].text);
    }
    assert forall|i: int, key: Seq<u8>| 0 <= i < items.len() && #[trigger] is_section_key(
        key,
    ) implies (#[trigger] items[i]).text != name_of(key) by {
        lemma_entry_texts(e, items[i].text);
    }
    assert forall|i: int, key: Seq<u8>|
        0 <= i < items.len() && #[trigger] is_field_key(key) && Some(e.key) != Some(key) implies (
    #[trigger] items[i]).text != name_of(key) by {
        lemma_entry_texts(e, items[i].text);
    }
    lemma_tails_braceless(items);
    lemma_braceless_is_level(tails(items));
}

/// The items of a field, one by one.
#[verifier::spinoff_prover]
proof fn lemma_entry_items(e: Entry, more: bool)
    requires
        is_entry(e),
        more ==> e.layout.glue.len() > 0,
    ensures
        is_inside(entry_items(e), Some(e.key), more),
        entry_items(e)[0].text == name_of(e.key),
{
    let l = e.layout;
    let items = entry_items(e);
    let none = Seq::<u8>::empty();
    match e.value {
        Value::Number(token) => {
            lemma_number_is_plain(token);
            lemma_plain_concat(token, l.glue);
            lemma_colon(l, token + l.glue);
            lemma_plain_items(e, items, more);
        },
        Value::Flag(flag) => {
            lemma_flag_is_plain(flag);
            lemma_plain_concat(flag_bytes(flag), l.glue);
            lemma_colon(l, flag_bytes(flag) + l.glue);
            lemma_plain_items(e, items, more);
        },
        Value::Text(text) => {
            lemma_colon(l, none);
            lemma_plain_items(e, items, more);
        },
        Value::Texts(texts) => {
            let end = l.close + (seq![93u8] + l.glue);
            lemma_plain_concat(seq![93u8], l.glue);
            lemma_plain_concat(l.close, seq![93u8] + l.glue);
            assert(end.len() > 0);
            assert(!is_name_byte(end[0])) by {
                if l.close.len() > 0 {
                    assert(end[0] == l.close[0]);
                } else {
                    assert(end[0] == 93);
                }
            }
            if texts.len() == 0 {
                lemma_plain_concat(l.open, end);
                lemma_plain_concat(seq![91u8], l.open + end);
                lemma_colon(l, seq![91u8] + (l.open + end));
                lemma_plain_items(e, items, more);
            } else {
                let list = list_pieces(texts, l.sep, end);
                lemma_plain_concat(seq![91u8], l.open);
                lemma_colon(l, seq![91u8] + l.open);
                lemma_list_items(texts, l.sep, end);
                assert forall|i: int| 0 <= i < items.len() implies {
                    let item = #[trigger] items[i];
                    &&& item.text == name_of(e.key) || is_value(item.text)
                    &&& is_plain(item.tail)
                    &&& item.tail.len() > 0 ==> !is_name_byte(item.tail[0])
                    &&& i < items.len() - 1 || more ==> item.tail.len() > 0
                } by {
                    if i > 0 {
                        assert(items[i] == list[i - 1]);
                        assert(is_value(texts[i - 1]));
                        assert(l.sep[0] == 44 || l.sep[0] == 32 || l.sep[0] == 9 || l.sep[0] == 13
                            || l.sep[0] == 10);
                    }
                }
                lemma_plain_items(e, items, more);
            }
        },
    }
}

/// The name that a member has among those of the fields.
spec fn own_key(m: Member) -> Option<Seq<u8>> {
    match m {
        Member::Known(e) => Some(e.key),
        Member::Other(_) => None,
    }
}

#[verifier::spinoff_prover]
proof fn lemma_member_items(m: Member, more: bool)
    requires
        is_member(m, more),
    ensures
        is_inside(member_items(m), own_key(m), more),
{
    match m {
        Member::Known(e) => lemma_entry_items(e, more),
        Member::Other(items) => {
            assert forall|i: int, key: Seq<u8>| 0 <= i < items.len() && #[trigger] is_section_key(
                key,
            ) implies (#[trigger] items[i]).text != name_of(key) by {
                assert(is_known_key(key));
                assert(is_value(items[i].text));
            }
            assert forall|i: int, key: Seq<u8>|
                0 <= i < items.len() && #[trigger] is_field_key(key) && None::<Seq<u8>> != Some(
                    key,
                ) implies (#[trigger] items[i]).text != name_of(key) by {
                assert(is_known_key(key));
                assert(is_value(items[i].text));
            }
        },
    }
}

/// None of the strings is the name of an object.
spec fn is_below_sections(items: Seq<Item>) -> bool {
    forall|i: int, key: Seq<u8>|
        0 <= i < items.len() && #[trigger] is_section_key(key) ==> (#[trigger] items[i]).text
            != name_of(key)
}

/// What is true of the items of members in a row.
spec fn are_inside(items: Seq<Item>) -> bool {
    &&& items.len() > 0
    &&& are_loose(items, false)
    &&& is_level(tails(items))
    &&& is_below_sections(items)
}

#[verifier::spinoff_prover]
proof fn lemma_inside_concat(a: Seq<Item>, b: Seq<Item>)
    requires
        a.len() > 0,
        are_loose(a, true),
        is_level(tails(a)),
        is_below_sections(a),
        are_inside(b),
    ensures
        are_inside(a + b),
{
    let all = a + b;
    lemma_tails_concat(a, b);
    lemma_level_concat(tails(a), tails(b));
    assert forall|i: int| 0 <= i < all.len() implies {
        let item = #[trigger] all[i];
        &&& is_unescaped(item.text)
        &&& is_quoteless(item.tail)
        &&& item.tail.len() > 0 ==> !is_name_byte(item.tail[0])
        &&& i < all.len() - 1 || false ==> item.tail.len() > 0
    } by {
        if i < a.len() {
            assert(all[i] == a[i]);
        } else {
            assert(all[i] == b[i - a.len()]);
        }
    }
    assert forall|i: int, key: Seq<u8>| 0 <= i < all.len() && #[trigger] is_section_key(
        key,
    ) implies (#[trigger] all[i]).text != name_of(key) by {
        if i < a.len() {
            assert(all[i] == a[i]);
        } else {
            assert(all[i] == b[i - a.len()]);
        }
    }
}

/// Members behind the first.
spec fn are_later_members(ms: Seq<Member>) -> bool {
    forall|i: int| 0 <= i < ms.len() ==> is_member(#[trigger] ms[i], i < ms.len() - 1)
}

#[verifier::spinoff_prover]
proof fn lemma_members_inside(ms: Seq<Member>)
    requires
        ms.len() > 0,
        are_later_members(ms),
    ensures
        are_inside(members_items(ms)),
    decreases ms.len(),
{
    let first = member_items(ms[0]);
    let others = ms.drop_first();
    assert(is_member(ms[0], 0 < ms.len() - 1));
    lemma_member_items(ms[0], 0 < ms.len() - 1);
    if ms.len() == 1 {
        assert(members_items(others) =~= Seq::empty());
        assert(members_items(ms) =~= first);
    } else {
        assert forall|i: int| 0 <= i < others.len() implies is_member(
            #[trigger] others[i],
            i < others.len() - 1,
        ) by {
            assert(others[i] == ms[i + 1]);
            assert(is_member(ms[i + 1], i + 1 < ms.len() - 1));
        }
        lemma_members_inside(others);
        lemma_inside_concat(first, members_items(others));
    }
}

/// The items before, of and behind a member; none before has its name.
#[verifier::spinoff_prover]
proof fn lemma_member_at(ms: Seq<Member>, j: int) -> (parts: (Seq<Item>, Seq<Item>))
    requires
        are_members(ms),
        0 <= j < ms.len(),
        ms[j] is Known,
    ensures
        members_items(ms) == parts.0 + member_items(ms[j]) + parts.1,
        lacks(parts.0, ms[j]->Known_0.key),
    decreases j,
{
    let none = Seq::<Item>::empty();
    let others = ms.drop_first();
    let rest = members_items(others);
    if j == 0 {
        let own = member_items(ms[0]);
        assert(none + own + rest =~= own + rest);
        (none, rest)
    } else {
        let first = member_items(ms[0]);
        let key = ms[j]->Known_0.key;
        assert(others[j - 1] == ms[j]);
        assert forall|i: int| 0 <= i < others.len() implies is_member(
            #[trigger] others[i],
            i < others.len() - 1,
        ) by {
            assert(others[i] == ms[i + 1]);
            assert(is_member(ms[i + 1], i + 1 < ms.len() - 1));
        }
        assert forall|i: int, k: int| 0 <= i < k < others.len() implies match (
            #[trigger] others[i],
            #[trigger] others[k],
        ) {
            (Member::Known(e), Member::Known(f)) => e.key != f.key,
            _ => true,
        } by {
            assert(others[i] == ms[i + 1]);
            assert(others[k] == ms[k + 1]);
        }
        let (before, after) = lemma_member_at(others, j - 1);
        let own = member_items(ms[j]);
        assert(is_member(ms[0], 0 < ms.len() - 1));
        assert(is_member(ms[j], j < ms.len() - 1));
        lemma_member_items(ms[0], 0 < ms.len() - 1);
        assert(first + (before + own + after) =~= (first + before) + own + after);
        let all = first + before;
        assert(own_key(ms[0]) != Some(key));
        assert forall|i: int| 0 <= i < all.len() implies (#[trigger] all[i]).text != name_of(
            key,
        ) by {
            if i < first.len() {
                assert(all[i] == first[i]);
                assert(is_field_key(key));
            } else {
                assert(all[i] == before[i - first.len()]);
            }
        }
        (all, after)
    }
}

/// More bytes behind the last item are more bytes behind all of them.
proof fn lemma_extended(items: Seq<Item>, end: Seq<u8>)
    requires
        items.len() > 0,
    ensures
        spell(extended(items, end)) == spell(items) + end,
{
    let front = items.drop_last();
    let last = items.last();
    let longer = Item { text: last.text, tail: last.tail + end };
    assert(items =~= front + seq![last]);
    assert(extended(items, end) =~= front + seq![longer]);
    lemma_spell_concat(front, seq![last]);
    lemma_spell_concat(front, seq![longer]);
    lemma_spell_single(last);
    lemma_spell_single(longer);
    assert(spell_one(longer) =~= spell_one(last) + end);
    assert(spell(front) + (spell_one(last) + end) =~= (spell(front) + spell_one(last)) + end);
}

/// The inside of an object is the inside of an object, made of items.
#[verifier::spinoff_prover]
proof fn lemma_inside_of(o: Object)
    requires
        is_object(o),
    ensures
        are_pieces(inside_of(o)),
        is_object_text(inside_of(o)),
        is_below_sections(inside_of(o)),
        inside_of(o).len() == members_items(o.members).len(),
{
    let items = members_items(o.members);
    let all = inside_of(o);
    let n = items.len() - 1;
    lemma_members_inside(o.members);
    let last = items.last();
    assert(last == items[n]);
    assert(all.last() == (Item { text: last.text, tail: last.tail + seq![125u8] }));
    assert forall|i: int| 0 <= i < all.len() implies {
        &&& is_piece(#[trigger] all[i])
        &&& all[i].text == items[i].text
    } by {
        if i < n {
            assert(all[i] == items[i]);
        } else {
            let tail = last.tail + seq![125u8];
            assert(all[i].tail == tail);
            assert forall|k: int| 0 <= k < tail.len() implies #[trigger] tail[k] != 34 by {
                if k < last.tail.len() {
                    assert(tail[k] == last.tail[k]);
                }
            }
            if last.tail.len() > 0 {
                assert(tail[0] == last.tail[0]);
            } else {
                assert(tail[0] == 125);
            }
        }
    }
    assert forall|i: int, key: Seq<u8>| 0 <= i < all.len() && #[trigger] is_section_key(
        key,
    ) implies (#[trigger] all[i]).text != name_of(key) by {
        assert(all[i].text == items[i].text);
    }
    assert forall|i: int| 0 <= i < all.len() implies is_string((#[trigger] all[i]).text) by {
        assert(is_piece(all[i]));
        lemma_unescaped_is_string(all[i].text);
    }
    assert(all.last().tail.drop_last() =~= last.tail);
    assert(all.drop_last() =~= items.drop_last());
    assert(items =~= items.drop_last() + seq![last]);
    lemma_tails_concat(items.drop_last(), seq![last]);
    lemma_tails_single(last);
}

/// Reading the field `e` out of `o` gives its value.
spec fn reads_back(o: Seq<u8>, e: Entry) -> bool {
    match e.value {
        Value::Number(token) => number_field(o, e.key) == Some(token),
        Value::Text(text) => text_field(o, e.key) == Some(text),
        Value::Flag(flag) => flag_field(o, e.key) == Some(flag),
        Value::Texts(texts) => array_field(o, e.key) == texts,
    }
}

proof fn lemma_assoc(a: Seq<u8>, b: Seq<u8>, c: Seq<u8>)
    ensures
        (a + b) + c == a + (b + c),
{
    assert((a + b) + c =~= a + (b + c));
}

/// What follows a field's name and colon, up to the end of the buffer.
proof fn lemma_colon_then(key: Seq<u8>, l: Layout, value: Seq<u8>, rest: Seq<u8>)
    ensures
        (key + colon(l, value)) + rest == key + (l.a + (seq![58u8] + (l.b + (value + rest)))),
{
    let c = seq![58u8];
    lemma_assoc(key, colon(l, value), rest);
    lemma_assoc(l.a, c + (l.b + value), rest);
    lemma_assoc(c, l.b + value, rest);
    lemma_assoc(l.b, value, rest);
}

/// A field of one item reads back.
proof fn lemma_one_item(
    buf: Seq<u8>,
    before: Seq<u8>,
    key: Seq<u8>,
    l: Layout,
    value: Seq<u8>,
    rest: Seq<u8>,
)
    requires
        is_key(key),
        buf == before + spell(seq![field(key, colon(l, value))]) + rest,
    ensures
        buf == before + (key + (l.a + (seq![58u8] + (l.b + (value + rest))))),
{
    let item = field(key, colon(l, value));
    lemma_key_is_quoted(key);
    lemma_spell_single(item);
    lemma_assoc(before, key + colon(l, value), rest);
    lemma_colon_then(key, l, value, rest);
}

#[verifier::spinoff_prover]
proof fn lemma_number_reads_back(
    buf: Seq<u8>,
    before: Seq<u8>,
    e: Entry,
    token: Seq<u8>,
    rest: Seq<u8>,
)
    requires
        is_entry(e),
        e.value == Value::Number(token),
        is_key(e.key),
        buf == before + spell(entry_items(e)) + rest,
        first_occurrence(buf, e.key) == Some(before.len() as int),
        rest.len() > 0,
        !ByteSet::Number.holds(rest[0]),
    ensures
        number_field(buf, e.key) == Some(token),
{
    let l = e.layout;
    let after = l.glue + rest;
    lemma_one_item(buf, before, e.key, l, token + l.glue, rest);
    lemma_assoc(token, l.glue, rest);
    if l.glue.len() > 0 {
        assert(after[0] == l.glue[0]);
    } else {
        assert(after[0] == rest[0]);
    }
    lemma_number(buf, before, e.key, l.a, l.b, token, after);
}

#[verifier::spinoff_prover]
proof fn lemma_flag_reads_back(buf: Seq<u8>, before: Seq<u8>, e: Entry, flag: bool, rest: Seq<u8>)
    requires
        is_entry(e),
        e.value == Value::Flag(flag),
        is_key(e.key),
        buf == before + spell(entry_items(e)) + rest,
        first_occurrence(buf, e.key) == Some(before.len() as int),
    ensures
        flag_field(buf, e.key) == Some(flag),
{
    let l = e.layout;
    lemma_one_item(buf, before, e.key, l, flag_bytes(flag) + l.glue, rest);
    lemma_assoc(flag_bytes(flag), l.glue, rest);
    lemma_flag(buf, before, e.key, l.a, l.b, flag, l.glue + rest);
}

#[verifier::spinoff_prover]
proof fn lemma_text_reads_back(
    buf: Seq<u8>,
    before: Seq<u8>,
    e: Entry,
    text: Seq<u8>,
    rest: Seq<u8>,
)
    requires
        is_entry(e),
        e.value == Value::Text(text),
        is_key(e.key),
        buf == before + spell(entry_items(e)) + rest,
        first_occurrence(buf, e.key) == Some(before.len() as int),
    ensures
        text_field(buf, e.key) == Some(text),
{
    let l = e.layout;
    let none = Seq::<u8>::empty();
    let first = field(e.key, colon(l, none));
    let second = Item { text, tail: l.glue };
    let after = quoted(text) + (l.glue + rest);
    lemma_spell_concat(seq![first], seq![second]);
    lemma_spell_single(second);
    assert(entry_items(e) =~= seq![first] + seq![second]);
    lemma_assoc(before, spell(seq![first]) + spell_one(second), rest);
    lemma_assoc(spell(seq![first]), spell_one(second), rest);
    lemma_assoc(quoted(text), l.glue, rest);
    lemma_assoc(before, spell(seq![first]), after);
    lemma_one_item(buf, before, e.key, l, none, after);
    assert(none + after =~= after);
    lemma_text(buf, before, e.key, l.a, l.b, text, l.glue + rest);
}

#[verifier::spinoff_prover]
proof fn lemma_texts_read_back(
    buf: Seq<u8>,
    before: Seq<u8>,
    e: Entry,
    texts: Seq<Seq<u8>>,
    rest: Seq<u8>,
)
    requires
        is_entry(e),
        e.value == Value::Texts(texts),
        is_key(e.key),
        buf == before + spell(entry_items(e)) + rest,
        first_occurrence(buf, e.key) == Some(before.len() as int),
    ensures
        array_field(buf, e.key) == texts,
{
    let l = e.layout;
    let end = l.close + (seq![93u8] + l.glue);
    let bracket = seq![91u8];
    let a = l.a + (seq![58u8] + l.b);
    assert forall|i: int| 0 <= i < a.len() implies #[trigger] a[i] == 32 || a[i] == 9 || a[i]
        == 58 by {
        if i < l.a.len() {
            assert(a[i] == l.a[i]);
        } else if i > l.a.len() {
            assert(a[i] == l.b[i - l.a.len() - 1]);
        }
    }
    assert forall|i: int| 0 <= i < texts.len() implies is_unescaped(#[trigger] texts[i]) by {
        assert(is_value(texts[i]));
    }
    let list = if texts.len() == 0 {
        end
    } else {
        spell(list_pieces(texts, l.sep, end))
    };
    let value = bracket + (l.open + (list + rest));
    assert(buf == before + (e.key + (l.a + (seq![58u8] + (l.b + value))))) by {
        if texts.len() == 0 {
            lemma_one_item(buf, before, e.key, l, bracket + (l.open + end), rest);
            lemma_assoc(bracket, l.open + end, rest);
            lemma_assoc(l.open, end, rest);
        } else {
            let first = field(e.key, colon(l, bracket + l.open));
            let items = list_pieces(texts, l.sep, end);
            lemma_spell_concat(seq![first], items);
            assert(entry_items(e) =~= seq![first] + items);
            lemma_assoc(before, spell(seq![first]) + list, rest);
            lemma_assoc(spell(seq![first]), list, rest);
            lemma_assoc(before, spell(seq![first]), list + rest);
            lemma_one_item(buf, before, e.key, l, bracket + l.open, list + rest);
            lemma_assoc(bracket, l.open, list + rest);
        }
    }
    lemma_assoc(seq![58u8], l.b, value);
    lemma_assoc(l.a, seq![58u8] + l.b, value);
    lemma_array(buf, before, e.key, a, l.open, texts, l.sep, l.close, l.glue, rest);
}

/// A field reads back from where its name stands first.
proof fn lemma_value_reads_back(buf: Seq<u8>, before: Seq<u8>, e: Entry, rest: Seq<u8>)
    requires
        is_entry(e),
        buf == before + spell(entry_items(e)) + rest,
        first_occurrence(buf, e.key) == Some(before.len() as int),
        rest.len() > 0,
        !ByteSet::Number.holds(rest[0]),
    ensures
        reads_back(buf, e),
{
    assert(is_known_key(e.key));
    lemma_known_key(e.key);
    match e.value {
        Value::Number(token) => lemma_number_reads_back(buf, before, e, token, rest),
        Value::Flag(flag) => lemma_flag_reads_back(buf, before, e, flag, rest),
        Value::Text(text) => lemma_text_reads_back(buf, before, e, text, rest),
        Value::Texts(texts) => lemma_texts_read_back(buf, before, e, texts, rest),
    }
}

/// Each field of an object reads back.
#[verifier::spinoff_prover]
proof fn lemma_entry_reads_back(o: Object, j: int)
    requires
        is_object(o),
        0 <= j < o.members.len(),
        o.members[j] is Known,
    ensures
        reads_back(object_bytes(o), o.members[j]->Known_0),
{
    let e = o.members[j]->Known_0;
    let own = entry_items(e);
    let items = members_items(o.members);
    let all = inside_of(o);
    let head = seq![123u8] + o.lead;
    assert(is_member(o.members[j], j < o.members.len() - 1));
    lemma_entry_items(e, j < o.members.len() - 1);
    lemma_inside_of(o);
    let (before, after) = lemma_member_at(o.members, j);
    let m = before.len() as int;
    assert(is_known_key(e.key));
    lemma_known_key(e.key);
    assert(items =~= before + own + after);
    assert(items.len() > m);
    assert(all.take(m) =~= before);
    assert(all[m].text == items[m].text);
    assert(items[m] == own[0]);
    assert(is_quoteless(head));
    lemma_first_behind(head, all, m, e.key);
    lemma_extended(items, seq![125u8]);
    lemma_spell_concat(before + own, after);
    lemma_spell_concat(before, own);
    let rest = spell(after) + seq![125u8];
    let start = head + spell(before);
    let buf = object_bytes(o);
    assert(buf =~= start + spell(own) + rest);
    assert(!ByteSet::Number.holds(rest[0])) by {
        if after.len() > 0 {
            assert(rest[0] == spell_one(after[0])[0]);
            assert(spell_one(after[0])[0] == 34);
        } else {
            assert(spell(after) =~= Seq::empty());
            assert(rest[0] == 125);
        }
    }
    lemma_value_reads_back(buf, start, e, rest);
}

/// The items of a part: only the first of a known object has its name.
#[verifier::spinoff_prover]
proof fn lemma_part_items(part: Part)
    requires
        is_part(part),
    ensures
        are_pieces(part_items(part)),
        forall|i: int, key: Seq<u8>|
            0 <= i < part_items(part).len() && #[trigger] is_section_key(key) && !(part matches
                Part::Known { key: k, .. } && k == key) ==> (#[trigger] part_items(part)[i]).text
                != name_of(key),
{
    let all = part_items(part);
    if let Part::Known { key: own, a, object, glue } = part {
        assert(is_known_key(own));
        lemma_known_key(own);
        lemma_key_is_quoted(own);
        assert forall|key: Seq<u8>| #[trigger] is_section_key(key) && key != own implies name_of(
            own,
        ) != name_of(key) by {
            assert(is_known_key(key));
            lemma_known_key(key);
            lemma_names_differ(own, key);
        }
        match object {
            None => {
                let word = seq![110u8, 117u8, 108u8, 108u8];
                let tail = a + (word + glue);
                assert forall|k: int| 0 <= k < tail.len() implies #[trigger] tail[k] != 34 by {
                    if k < a.len() {
                        assert(tail[k] == a[k]);
                    } else if k < a.len() + 4 {
                        assert(tail[k] == word[k - a.len()]);
                    } else {
                        assert(tail[k] == glue[k - a.len() - 4]);
                    }
                }
                assert(tail[0] == a[0]);
                assert(is_piece(all[0]));
            },
            Some(o) => {
                let items = inside_of(o);
                let longer = extended(items, glue);
                let tail = a + (seq![123u8] + o.lead);
                lemma_inside_of(o);
                assert forall|k: int| 0 <= k < tail.len() implies #[trigger] tail[k] != 34 by {
                    if k < a.len() {
                        assert(tail[k] == a[k]);
                    } else if k > a.len() {
                        assert(tail[k] == o.lead[k - a.len() - 1]);
                    }
                }
                assert(tail[0] == a[0]);
                assert(is_piece(all[0]));
                assert forall|i: int| 1 <= i < all.len() implies is_piece(#[trigger] all[i])
                    && all[i].text == items[i - 1].text by {
                    assert(all[i] == longer[i - 1]);
                    let item = items[i - 1];
                    assert(is_piece(item));
                    if i == all.len() - 1 {
                        let t = item.tail + glue;
                        assert(items.last() == item);
                        assert(all[i] == (Item { text: item.text, tail: t }));
                        assert forall|j: int| 0 <= j < t.len() implies #[trigger] t[j] != 34 by {
                            if j < item.tail.len() {
                                assert(t[j] == item.tail[j]);
                            } else {
                                assert(t[j] == glue[j - item.tail.len()]);
                            }
                        }
                        assert(t[0] == item.tail[0]);
                    } else {
                        assert(longer[i - 1] == item);
                    }
                }
                assert forall|i: int, key: Seq<u8>|
                    0 <= i < all.len() && #[trigger] is_section_key(key) && key != own implies (
                #[trigger] all[i]).text != name_of(key) by {
                    if i > 0 {
                        assert(all[i].text == items[i - 1].text);
                    }
                }
            },
        }
    }
}

proof fn lemma_items_concat(a: Seq<Item>, b: Seq<Item>)
    requires
        are_pieces(a),
        are_pieces(b),
    ensures
        are_pieces(a + b),
{
    assert forall|i: int| 0 <= i < (a + b).len() implies is_piece(#[trigger] (a + b)[i]) by {
        if i < a.len() {
            assert((a + b)[i] == a[i]);
        } else {
            assert((a + b)[i] == b[i - a.len()]);
        }
    }
}

proof fn lemma_parts_rest(parts: Seq<Part>)
    requires
        are_parts(parts),
        parts.len() > 0,
    ensures
        are_parts(parts.drop_first()),
{
    let others = parts.drop_first();
    assert forall|i: int| 0 <= i < others.len() implies is_part(#[trigger] others[i]) by {
        assert(others[i] == parts[i + 1]);
    }
    assert forall|i: int, k: int| 0 <= i < k < others.len() implies match (
        #[trigger] others[i],
        #[trigger] others[k],
    ) {
        (Part::Known { key: x, .. }, Part::Known { key: y, .. }) => x != y,
        _ => true,
    } by {
        assert(others[i] == parts[i + 1]);
        assert(others[k] == parts[k + 1]);
    }
}

/// The items of all parts.
proof fn lemma_parts_items(parts: Seq<Part>)
    requires
        are_parts(parts),
    ensures
        are_pieces(parts_items(parts)),
    decreases parts.len(),
{
    if parts.len() > 0 {
        lemma_parts_rest(parts);
        assert(is_part(parts[0]));
        lemma_part_items(parts[0]);
        lemma_parts_items(parts.drop_first());
        lemma_items_concat(part_items(parts[0]), parts_items(parts.drop_first()));
    }
}

/// The items before, of and behind a known object; none before has its name.
#[verifier::spinoff_prover]
proof fn lemma_part_at(parts: Seq<Part>, j: int) -> (r: (Seq<Item>, Seq<Item>))
    requires
        are_parts(parts),
        0 <= j < parts.len(),
        parts[j] is Known,
    ensures
        parts_items(parts) == r.0 + part_items(parts[j]) + r.1,
        lacks(r.0, parts[j]->key),
    decreases j,
{
    let none = Seq::<Item>::empty();
    let others = parts.drop_first();
    lemma_parts_rest(parts);
    if j == 0 {
        let own = part_items(parts[0]);
        let rest = parts_items(others);
        assert(none + own + rest =~= own + rest);
        (none, rest)
    } else {
        let first = part_items(parts[0]);
        let key = parts[j]->key;
        assert(others[j - 1] == parts[j]);
        let (before, after) = lemma_part_at(others, j - 1);
        let own = part_items(parts[j]);
        assert(is_part(parts[0]));
        assert(is_part(parts[j]));
        lemma_part_items(parts[0]);
        assert(first + (before + own + after) =~= (first + before) + own + after);
        let all = first + before;
        assert forall|i: int| 0 <= i < all.len() implies (#[trigger] all[i]).text != name_of(
            key,
        ) by {
            if i < first.len() {
                assert(all[i] == first[i]);
                assert(is_section_key(key));
            } else {
                assert(all[i] == before[i - first.len()]);
            }
        }
        (all, after)
    }
}

/// A word behind a name, one byte after another.
#[verifier::spinoff_prover]
proof fn lemma_null_placed(
    before: Seq<u8>,
    key: Seq<u8>,
    a: Seq<u8>,
    word: Seq<u8>,
    post: Seq<u8>,
)
    ensures
        before + (key + (a + word)) + post == before + (key + (a + (word + post))),
{
    lemma_assoc(before, key + (a + word), post);
    lemma_assoc(key, a + word, post);
    lemma_assoc(a, word, post);
}

/// An object behind a name, one byte after another.
#[verifier::spinoff_prover]
proof fn lemma_object_placed(
    before: Seq<u8>,
    key: Seq<u8>,
    a: Seq<u8>,
    open: Seq<u8>,
    inner: Seq<u8>,
    glue: Seq<u8>,
    post: Seq<u8>,
)
    ensures
        before + ((key + (a + open)) + (inner + glue)) + post == before + (key + (a + (open + (inner
            + (glue + post))))),
{
    lemma_assoc(before, (key + (a + open)) + (inner + glue), post);
    lemma_assoc(key + (a + open), inner + glue, post);
    lemma_assoc(inner, glue, post);
    lemma_assoc(key, a + open, inner + (glue + post));
    lemma_assoc(a, open, inner + (glue + post));
}

/// Each known object of a body reads back, and `null` as no object.
#[verifier::spinoff_prover]
proof fn lemma_part_reads_back(lead: Seq<u8>, parts: Seq<Part>, j: int)
    requires
        is_quoteless(lead),
        are_parts(parts),
        0 <= j < parts.len(),
        parts[j] is Known,
    ensures
        object(written_body(lead, parts), parts[j]->key) == match parts[j]->object {
            None => None,
            Some(o) => Some(object_bytes(o)),
        },
{
    let part = parts[j];
    let key = part->key;
    let a = part->a;
    let glue = part->glue;
    let items = parts_items(parts);
    let own = part_items(part);
    let buf = written_body(lead, parts);
    lemma_parts_items(parts);
    let (pre, post) = lemma_part_at(parts, j);
    let m = pre.len() as int;
    assert(is_part(part));
    assert(is_known_key(key));
    lemma_known_key(key);
    lemma_key_is_quoted(key);
    assert(items.take(m) =~= pre);
    assert(items[m] == own[0]);
    lemma_first_behind(lead, items, m, key);
    lemma_spell_concat(pre + own, post);
    lemma_spell_concat(pre, own);
    let before = lead + spell(pre);
    assert(buf =~= before + spell(own) + spell(post));
    match part->object {
        None => {
            let word = seq![110u8, 117u8, 108u8, 108u8];
            lemma_spell_single(own[0]);
            assert(own =~= seq![own[0]]);
            lemma_null_placed(before, key, a, word + glue, spell(post));
            lemma_null(buf, before, key, a, word + glue + spell(post));
        },
        Some(o) => {
            let inner = inside_of(o);
            lemma_inside_of(o);
            lemma_extended(inner, glue);
            lemma_spell_concat(seq![own[0]], extended(inner, glue));
            lemma_spell_single(own[0]);
            assert(own =~= seq![own[0]] + extended(inner, glue));
            let after = glue + spell(post);
            lemma_object_placed(
                before,
                key,
                a,
                seq![123u8] + o.lead,
                spell(inner),
                glue,
                spell(post),
            );
            lemma_object(buf, before, key, a, o.lead, inner, after);
        },
    }
}

/// `null` is no object.
#[verifier::spinoff_prover]
proof fn lemma_null(buf: Seq<u8>, before: Seq<u8>, key: Seq<u8>, a: Seq<u8>, rest: Seq<u8>)
    requires
        is_colons(a),
        rest.len() > 0,
        rest[0] == 110,
        buf == before + (key + (a + rest)),
        first_occurrence(buf, key) == Some(before.len() as int),
    ensures
        object(buf, key) is None,
{
    let at = (before.len() + key.len()) as int;
    let e = (at + a.len()) as int;
    assert forall|j: int| at <= j < e implies ByteSet::BlankOrColon.holds(#[trigger] buf[j]) by {
        assert(buf[j] == a[j - at]);
    }
    assert(buf[e] == rest[0]);
    lemma_blanks(buf, at, e);
}

proof fn lemma_blanks(buf: Seq<u8>, i: int, e: int)
    requires
        0 <= i <= e < buf.len(),
        forall|j: int| i <= j < e ==> ByteSet::BlankOrColon.holds(#[trigger] buf[j]),
        !ByteSet::BlankOrColon.holds(buf[e]),
    ensures
        run_end(buf, i, ByteSet::BlankOrColon) == e,
    decreases e - i,
{
    if i < e {
        lemma_blanks(buf, i + 1, e);
    }
}

/// What the objects of a body say.
pub struct Script {
    /// The transaction.
    pub transaction: Object,
    /// The customer.
    pub customer: Object,
    /// The merchant.
    pub merchant: Object,
    /// The terminal.
    pub terminal: Object,
    /// The previous transaction.
    pub last: Option<Object>,
}

/// The object named `key` is `object`.
pub open spec fn has_part(parts: Seq<Part>, key: &str, object: Option<Object>) -> bool {
    exists|j: int|
        0 <= j < parts.len() && (#[trigger] parts[j] matches Part::Known { key: k, object: o, .. }
            && k == key.spec_bytes() && o == object)
}

/// The previous transaction of a body is `object`; where there is none, its name need not be there.
pub open spec fn has_last(parts: Seq<Part>, object: Option<Object>) -> bool {
    ||| has_part(parts, KEY_LAST_TRANSACTION, object)
    ||| object is None && forall|j: int|
        0 <= j < parts.len() ==> !(#[trigger] parts[j] matches Part::Known { key: k, .. } && k
            == KEY_LAST_TRANSACTION.spec_bytes())
}

/// A body has the objects of a script, in any order and among other parts.
pub open spec fn is_written(lead: Seq<u8>, parts: Seq<Part>, s: Script) -> bool {
    &&& is_quoteless(lead)
    &&& are_parts(parts)
    &&& has_part(parts, KEY_TRANSACTION, Some(s.transaction))
    &&& has_part(parts, KEY_CUSTOMER, Some(s.customer))
    &&& has_part(parts, KEY_MERCHANT, Some(s.merchant))
    &&& has_part(parts, KEY_TERMINAL, Some(s.terminal))
    &&& has_last(parts, s.last)
}

/// The field named `key` has the value `value`, however it is laid out.
pub open spec fn has_entry(o: Object, key: &str, value: Value) -> bool {
    exists|j: int|
        0 <= j < o.members.len() && (#[trigger] o.members[j] matches Member::Known(e) && e.key
            == key.spec_bytes() && e.value == value)
}

/// The objects say what `f` says, with their fields in any order. The merchant's identifier is `id`
/// and the customer has dealt with `known`.
pub open spec fn states(
    s: Script,
    f: Fields<Seq<u8>>,
    id: Seq<u8>,
    known: Seq<Seq<u8>>,
) -> bool {
    &&& has_entry(s.transaction, KEY_AMOUNT, Value::Number(f.amount))
    &&& has_entry(s.transaction, KEY_INSTALLMENTS, Value::Number(f.installments))
    &&& has_entry(s.transaction, KEY_REQUESTED_AT, Value::Text(f.requested_at))
    &&& has_entry(s.customer, KEY_AVG_AMOUNT, Value::Number(f.avg_amount))
    &&& has_entry(s.customer, KEY_TX_COUNT_24H, Value::Number(f.tx_count_24h))
    &&& has_entry(s.customer, KEY_KNOWN_MERCHANTS, Value::Texts(known))
    &&& has_entry(s.merchant, KEY_ID, Value::Text(id))
    &&& has_entry(s.merchant, KEY_MCC, Value::Text(f.mcc))
    &&& has_entry(s.merchant, KEY_AVG_AMOUNT, Value::Number(f.merchant_avg_amount))
    &&& has_entry(s.terminal, KEY_IS_ONLINE, Value::Flag(f.is_online))
    &&& has_entry(s.terminal, KEY_CARD_PRESENT, Value::Flag(f.card_present))
    &&& has_entry(s.terminal, KEY_KM_FROM_HOME, Value::Number(f.km_from_home))
    &&& f.known_merchant == known.contains(id)
    &&& match f.last {
        LastFields::Absent => s.last is None,
        LastFields::Incomplete => false,
        LastFields::Found { timestamp, km_from_current } => {
            &&& s.last is Some
            &&& has_entry(s.last->0, KEY_TIMESTAMP, Value::Text(timestamp))
            &&& has_entry(s.last->0, KEY_KM_FROM_CURRENT, Value::Number(km_from_current))
        },
    }
}

/// An object of a body reads back.
proof fn lemma_object_of(lead: Seq<u8>, parts: Seq<Part>, key: &str, found: Option<Object>)
    requires
        is_quoteless(lead),
        are_parts(parts),
        has_part(parts, key, found),
    ensures
        object(written_body(lead, parts), key.spec_bytes()) == match found {
            None => None,
            Some(o) => Some(object_bytes(o)),
        },
        found matches Some(o) ==> is_object(o),
{
    let j = choose|j: int|
        0 <= j < parts.len() && (#[trigger] parts[j] matches Part::Known { key: k, object: o, .. }
            && k == key.spec_bytes() && o == found);
    lemma_part_reads_back(lead, parts, j);
    assert(is_part(parts[j]));
}

/// A field of an object reads back.
proof fn lemma_field_of(o: Object, key: &str, value: Value)
    requires
        is_object(o),
        has_entry(o, key, value),
    ensures
        match value {
            Value::Number(token) => number_field(object_bytes(o), key.spec_bytes()) == Some(token),
            Value::Text(text) => text_field(object_bytes(o), key.spec_bytes()) == Some(text),
            Value::Flag(flag) => flag_field(object_bytes(o), key.spec_bytes()) == Some(flag),
            Value::Texts(texts) => array_field(object_bytes(o), key.spec_bytes()) == texts,
        },
{
    let j = choose|j: int|
        0 <= j < o.members.len() && (#[trigger] o.members[j] matches Member::Known(e) && e.key
            == key.spec_bytes() && e.value == value);
    lemma_entry_reads_back(o, j);
}

/// The fields of a transaction read back.
#[verifier::spinoff_prover]
proof fn lemma_transaction(o: Object, f: Fields<Seq<u8>>)
    requires
        is_object(o),
        has_entry(o, KEY_AMOUNT, Value::Number(f.amount)),
        has_entry(o, KEY_INSTALLMENTS, Value::Number(f.installments)),
        has_entry(o, KEY_REQUESTED_AT, Value::Text(f.requested_at)),
    ensures
        number_field(object_bytes(o), KEY_AMOUNT.spec_bytes()) == Some(f.amount),
        number_field(object_bytes(o), KEY_INSTALLMENTS.spec_bytes()) == Some(f.installments),
        text_field(object_bytes(o), KEY_REQUESTED_AT.spec_bytes()) == Some(f.requested_at),
{
    lemma_field_of(o, KEY_AMOUNT, Value::Number(f.amount));
    lemma_field_of(o, KEY_INSTALLMENTS, Value::Number(f.installments));
    lemma_field_of(o, KEY_REQUESTED_AT, Value::Text(f.requested_at));
}

/// The fields of a customer read back.
#[verifier::spinoff_prover]
proof fn lemma_customer(o: Object, f: Fields<Seq<u8>>, known: Seq<Seq<u8>>)
    requires
        is_object(o),
        has_entry(o, KEY_AVG_AMOUNT, Value::Number(f.avg_amount)),
        has_entry(o, KEY_TX_COUNT_24H, Value::Number(f.tx_count_24h)),
        has_entry(o, KEY_KNOWN_MERCHANTS, Value::Texts(known)),
    ensures
        number_field(object_bytes(o), KEY_AVG_AMOUNT.spec_bytes()) == Some(f.avg_amount),
        number_field(object_bytes(o), KEY_TX_COUNT_24H.spec_bytes()) == Some(f.tx_count_24h),
        array_field(object_bytes(o), KEY_KNOWN_MERCHANTS.spec_bytes()) == known,
{
    lemma_field_of(o, KEY_AVG_AMOUNT, Value::Number(f.avg_amount));
    lemma_field_of(o, KEY_TX_COUNT_24H, Value::Number(f.tx_count_24h));
    lemma_field_of(o, KEY_KNOWN_MERCHANTS, Value::Texts(known));
}

/// The fields of a merchant read back.
#[verifier::spinoff_prover]
proof fn lemma_merchant(o: Object, f: Fields<Seq<u8>>, id: Seq<u8>)
    requires
        is_object(o),
        has_entry(o, KEY_ID, Value::Text(id)),
        has_entry(o, KEY_MCC, Value::Text(f.mcc)),
        has_entry(o, KEY_AVG_AMOUNT, Value::Number(f.merchant_avg_amount)),
    ensures
        text_field(object_bytes(o), KEY_ID.spec_bytes()) == Some(id),
        text_field(object_bytes(o), KEY_MCC.spec_bytes()) == Some(f.mcc),
        number_field(object_bytes(o), KEY_AVG_AMOUNT.spec_bytes()) == Some(
            f.merchant_avg_amount,
        ),
{
    lemma_field_of(o, KEY_ID, Value::Text(id));
    lemma_field_of(o, KEY_MCC, Value::Text(f.mcc));
    lemma_field_of(o, KEY_AVG_AMOUNT, Value::Number(f.merchant_avg_amount));
}

/// The fields of a terminal read back.
#[verifier::spinoff_prover]
proof fn lemma_terminal(o: Object, f: Fields<Seq<u8>>)
    requires
        is_object(o),
        has_entry(o, KEY_IS_ONLINE, Value::Flag(f.is_online)),
        has_entry(o, KEY_CARD_PRESENT, Value::Flag(f.card_present)),
        has_entry(o, KEY_KM_FROM_HOME, Value::Number(f.km_from_home)),
    ensures
        flag_field(object_bytes(o), KEY_IS_ONLINE.spec_bytes()) == Some(f.is_online),
        flag_field(object_bytes(o), KEY_CARD_PRESENT.spec_bytes()) == Some(f.card_present),
        number_field(object_bytes(o), KEY_KM_FROM_HOME.spec_bytes()) == Some(f.km_from_home),
{
    lemma_field_of(o, KEY_IS_ONLINE, Value::Flag(f.is_online));
    lemma_field_of(o, KEY_CARD_PRESENT, Value::Flag(f.card_present));
    lemma_field_of(o, KEY_KM_FROM_HOME, Value::Number(f.km_from_home));
}

/// The fields of a previous transaction read back.
#[verifier::spinoff_prover]
proof fn lemma_previous(o: Object, timestamp: Seq<u8>, km: Seq<u8>)
    requires
        is_object(o),
        has_entry(o, KEY_TIMESTAMP, Value::Text(timestamp)),
        has_entry(o, KEY_KM_FROM_CURRENT, Value::Number(km)),
    ensures
        text_field(object_bytes(o), KEY_TIMESTAMP.spec_bytes()) == Some(timestamp),
        number_field(object_bytes(o), KEY_KM_FROM_CURRENT.spec_bytes()) == Some(km),
{
    lemma_field_of(o, KEY_TIMESTAMP, Value::Text(timestamp));
    lemma_field_of(o, KEY_KM_FROM_CURRENT, Value::Number(km));
}

/// A name that stands nowhere is found nowhere.
#[verifier::spinoff_prover]
proof fn lemma_no_part(lead: Seq<u8>, parts: Seq<Part>, key: Seq<u8>)
    requires
        is_quoteless(lead),
        are_parts(parts),
        is_section_key(key),
        forall|j: int|
            0 <= j < parts.len() ==> !(#[trigger] parts[j] matches Part::Known { key: k, .. } && k
                == key),
    ensures
        object(written_body(lead, parts), key) is None,
{
    let items = parts_items(parts);
    assert(is_known_key(key));
    lemma_known_key(key);
    lemma_parts_items(parts);
    lemma_parts_lack(parts, key);
    lemma_nowhere(lead, items, key);
}

proof fn lemma_parts_lack(parts: Seq<Part>, key: Seq<u8>)
    requires
        are_parts(parts),
        is_section_key(key),
        forall|j: int|
            0 <= j < parts.len() ==> !(#[trigger] parts[j] matches Part::Known { key: k, .. } && k
                == key),
    ensures
        lacks(parts_items(parts), key),
    decreases parts.len(),
{
    if parts.len() > 0 {
        let others = parts.drop_first();
        let a = part_items(parts[0]);
        let b = parts_items(others);
        lemma_parts_rest(parts);
        assert(is_part(parts[0]));
        lemma_part_items(parts[0]);
        assert forall|j: int| 0 <= j < others.len() implies !(#[trigger] others[j] matches
            Part::Known { key: k, .. } && k == key) by {
            assert(others[j] == parts[j + 1]);
        }
        lemma_parts_lack(others, key);
        assert forall|i: int| 0 <= i < (a + b).len() implies (#[trigger] (a + b)[i]).text
            != name_of(key) by {
            if i < a.len() {
                assert((a + b)[i] == a[i]);
            } else {
                assert((a + b)[i] == b[i - a.len()]);
            }
        }
    }
}

/// The previous transaction reads back.
#[verifier::spinoff_prover]
proof fn lemma_last_reads_back(
    lead: Seq<u8>,
    parts: Seq<Part>,
    s: Script,
    f: Fields<Seq<u8>>,
    id: Seq<u8>,
    known: Seq<Seq<u8>>,
)
    requires
        is_written(lead, parts, s),
        states(s, f, id, known),
    ensures
        last_fields_of(written_body(lead, parts)) == f.last,
{
    if has_part(parts, KEY_LAST_TRANSACTION, s.last) {
        lemma_object_of(lead, parts, KEY_LAST_TRANSACTION, s.last);
    } else {
        lemma_no_part(lead, parts, KEY_LAST_TRANSACTION.spec_bytes());
    }
    if let LastFields::Found { timestamp, km_from_current } = f.last {
        lemma_previous(s.last->0, timestamp, km_from_current);
    }
}

/// The four objects read back.
#[verifier::spinoff_prover]
proof fn lemma_objects_read_back(lead: Seq<u8>, parts: Seq<Part>, s: Script)
    requires
        is_written(lead, parts, s),
    ensures
        object(written_body(lead, parts), KEY_TRANSACTION.spec_bytes()) == Some(
            object_bytes(s.transaction),
        ),
        object(written_body(lead, parts), KEY_CUSTOMER.spec_bytes()) == Some(
            object_bytes(s.customer),
        ),
        object(written_body(lead, parts), KEY_MERCHANT.spec_bytes()) == Some(
            object_bytes(s.merchant),
        ),
        object(written_body(lead, parts), KEY_TERMINAL.spec_bytes()) == Some(
            object_bytes(s.terminal),
        ),
        is_object(s.transaction),
        is_object(s.customer),
        is_object(s.merchant),
        is_object(s.terminal),
{
    lemma_object_of(lead, parts, KEY_TRANSACTION, Some(s.transaction));
    lemma_object_of(lead, parts, KEY_CUSTOMER, Some(s.customer));
    lemma_object_of(lead, parts, KEY_MERCHANT, Some(s.merchant));
    lemma_object_of(lead, parts, KEY_TERMINAL, Some(s.terminal));
}

/// What the four objects say is read out of them.
#[verifier::spinoff_prover]
proof fn lemma_fields_in(s: Script, f: Fields<Seq<u8>>, id: Seq<u8>, known: Seq<Seq<u8>>)
    requires
        is_object(s.transaction),
        is_object(s.customer),
        is_object(s.merchant),
        is_object(s.terminal),
        states(s, f, id, known),
    ensures
        fields_in(
            object_bytes(s.transaction),
            object_bytes(s.customer),
            object_bytes(s.merchant),
            object_bytes(s.terminal),
            f.last,
        ) == Some(f),
{
    lemma_transaction(s.transaction, f);
    lemma_customer(s.customer, f, known);
    lemma_merchant(s.merchant, f, id);
    lemma_terminal(s.terminal, f);
}

/// What is written in a body is what is read out of it: whatever the order of its objects and
/// their fields, with blanks where they may stand, and with whatever other entries before, between
/// and behind, at the top level and within objects, as long as no known name stands in them.
#[verifier::spinoff_prover]
pub proof fn law_written_bodies_read_back(
    lead: Seq<u8>,
    parts: Seq<Part>,
    s: Script,
    f: Fields<Seq<u8>>,
    id: Seq<u8>,
    known: Seq<Seq<u8>>,
)
    requires
        is_written(lead, parts, s),
        states(s, f, id, known),
    ensures
        fields_of(written_body(lead, parts)) == Some(f),
{
    lemma_objects_read_back(lead, parts, s);
    lemma_last_reads_back(lead, parts, s, f, id, known);
    lemma_fields_in(s, f, id, known);
}

/// A body written from a payload, with its objects and fields in any order, blanks and other
/// entries, says what the payload says: where its numbers read as those of the payload, the two
/// have the same features. Only the two counts are written differently: whole numbers in the
/// payload, numbers as read in the body.
pub proof fn law_written_body_and_payload_agree<N, R>(
    lead: Seq<u8>,
    parts: Seq<Part>,
    s: Script,
    p: Payload<N>,
    w: NumberTexts,
    n: Numbers<N>,
    table: Map<Seq<char>, R>,
)
    requires
        is_written(lead, parts, s),
        states(s, fields_from(p, w), encode_utf8(p.merchant.id@), known_bytes(p)),
        are_numbers_of(n, p),
    ensures
        ({
            let f = fields_of(written_body(lead, parts));
            &&& f == Some(fields_from(p, w))
            &&& describes(f->0, n, p)
            &&& facts_of(f->0, n) is Some
            &&& forall|i: int|
                0 <= i < DIM && i != 1 && i != 8 ==> #[trigger] features_of(
                    facts_of(f->0, n)->0,
                    risk_of(table, f->0.mcc),
                )[i] == features_of(p.facts(), risk_of(table, encode_utf8(p.merchant.mcc@)))[i]
        }),
{
    let f = fields_from(p, w);
    law_written_bodies_read_back(
        lead,
        parts,
        s,
        f,
        encode_utf8(p.merchant.id@),
        known_bytes(p),
    );
    lemma_known(p);
    assert(describes(f, n, p));
    law_body_and_payload_agree(f, n, p, table);
}

} // verus!
