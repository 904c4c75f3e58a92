//! Quoted strings in a row: where a name stands first, and what reads back behind it.

use vstd::prelude::*;
use vstd::string::StringSliceAdditionalSpecFns;
use crate::parser::{
    array_field,
    closes_at,
    field_start,
    flag_field,
    is_number_token,
    lemma_object_end,
    nest,
    nesting,
    number_field,
    object,
    quoted_strings,
    text_field,
    Nesting,
};
use crate::scan::{
    first_occurrence,
    has_prefix,
    lemma_first_occurrence,
    occurs_at,
    run_end,
    ByteSet,
};

verus! {

/// A byte of a field's name: a small letter, a digit or an underscore.
pub open spec fn is_name_byte(c: u8) -> bool {
    97 <= c <= 122 || 48 <= c <= 57 || c == 95
}

/// A quoted field name.
pub open spec fn is_key(key: Seq<u8>) -> bool {
    &&& key.len() >= 3
    &&& key[0] == 34
    &&& key[key.len() - 1] == 34
    &&& forall|i: int| 1 <= i < key.len() - 1 ==> is_name_byte(#[trigger] key[i])
}

/// The name between the quotes.
pub open spec fn name_of(key: Seq<u8>) -> Seq<u8> {
    key.subrange(1, key.len() - 1)
}

/// A string between quotes.
pub open spec fn quoted(text: Seq<u8>) -> Seq<u8> {
    seq![34u8] + text + seq![34u8]
}

/// A string, to be quoted, and what follows it up to the next quote.
pub struct Item {
    /// The string.
    pub text: Seq<u8>,
    /// What follows its closing quote.
    pub tail: Seq<u8>,
}

/// How an item is spelled.
pub open spec fn spell_one(item: Item) -> Seq<u8> {
    quoted(item.text) + item.tail
}

/// How items are spelled, one after another.
pub open spec fn spell(items: Seq<Item>) -> Seq<u8>
    decreases items.len(),
{
    if items.len() == 0 {
        Seq::empty()
    } else {
        spell_one(items[0]) + spell(items.drop_first())
    }
}

/// A string without quotes and backslashes.
pub open spec fn is_unescaped(text: Seq<u8>) -> bool {
    forall|i: int| 0 <= i < text.len() ==> #[trigger] text[i] != 34 && text[i] != 92
}

/// The string has no quotes or backslashes; what follows begins with a colon, a comma or a closing
/// bracket and has no quotes.
pub open spec fn is_item(item: Item) -> bool {
    &&& is_unescaped(item.text)
    &&& item.tail.len() > 0
    &&& item.tail[0] == 58 || item.tail[0] == 44 || item.tail[0] == 125 || item.tail[0] == 93
    &&& forall|i: int| 0 <= i < item.tail.len() ==> #[trigger] item.tail[i] != 34
}

/// Every one is an item.
pub open spec fn are_items(items: Seq<Item>) -> bool {
    forall|i: int| 0 <= i < items.len() ==> is_item(#[trigger] items[i])
}

/// None of the strings is the name in `key`.
pub open spec fn lacks(items: Seq<Item>, key: Seq<u8>) -> bool {
    forall|i: int| 0 <= i < items.len() ==> (#[trigger] items[i]).text != name_of(key)
}

pub proof fn lemma_spell_concat(a: Seq<Item>, b: Seq<Item>)
    ensures
        spell(a + b) == spell(a) + spell(b),
    decreases a.len(),
{
    if a.len() == 0 {
        assert(a + b =~= b);
        assert(spell(a) + spell(b) =~= spell(b));
    } else {
        lemma_spell_concat(a.drop_first(), b);
        assert((a + b).drop_first() =~= a.drop_first() + b);
        assert((a + b)[0] == a[0]);
        assert(spell_one(a[0]) + (spell(a.drop_first()) + spell(b)) =~= (spell_one(a[0]) + spell(
            a.drop_first(),
        )) + spell(b));
    }
}

pub proof fn lemma_spell_single(item: Item)
    ensures
        spell(seq![item]) == spell_one(item),
{
    assert(seq![item].drop_first() =~= Seq::empty());
    assert(spell(seq![item].drop_first()) =~= Seq::empty());
    assert(spell_one(item) + Seq::<u8>::empty() =~= spell_one(item));
}

/// What stands before, at and behind one of the items.
pub proof fn lemma_spell_at(items: Seq<Item>, m: int)
    requires
        0 <= m < items.len(),
    ensures
        spell(items) == spell(items.take(m)) + spell_one(items[m]) + spell(items.skip(m + 1)),
{
    let rest = items.skip(m);
    assert(items =~= items.take(m) + rest);
    lemma_spell_concat(items.take(m), rest);
    assert(rest.drop_first() =~= items.skip(m + 1));
    assert(rest[0] == items[m]);
    assert(spell(items.take(m)) + (spell_one(items[m]) + spell(items.skip(m + 1))) =~= (spell(
        items.take(m),
    ) + spell_one(items[m])) + spell(items.skip(m + 1)));
}

pub proof fn lemma_key_is_quoted(key: Seq<u8>)
    requires
        is_key(key),
    ensures
        quoted(name_of(key)) == key,
        is_unescaped(name_of(key)),
{
    assert(quoted(name_of(key)) =~= key);
}

/// A key does not stand anywhere within an item with another string.
proof fn lemma_not_in_item(
    buf: Seq<u8>,
    head: Seq<u8>,
    item: Item,
    rest: Seq<u8>,
    key: Seq<u8>,
    r: int,
)
    requires
        buf == head + spell_one(item) + rest,
        is_item(item),
        is_key(key),
        item.text != name_of(key),
        head.len() <= r < head.len() + spell_one(item).len(),
    ensures
        !occurs_at(buf, key, r),
{
    let h = head.len() as int;
    let n = item.text.len() as int;
    let l = key.len() as int;
    let one = spell_one(item);
    assert(one.len() == n + 2 + item.tail.len());
    assert forall|j: int| 0 <= j < one.len() implies #[trigger] buf[h + j] == one[j] by {}
    if occurs_at(buf, key, r) {
        assert forall|j: int| 0 <= j < l implies #[trigger] buf[r + j] == key[j] by {
            assert(buf.subrange(r, r + l)[j] == key[j]);
        }
        assert(buf[r + 0] == 34);
        assert(buf[h + (r - h)] == one[r - h]);
        if r == h {
            assert(buf[h + (n + 1)] == one[n + 1]);
            assert(one[n + 1] == 34);
            assert(buf[r + (l - 1)] == key[l - 1]);
            if n + 1 < l - 1 {
                assert(buf[r + (n + 1)] == key[n + 1]);
                assert(is_name_byte(key[n + 1]));
            } else if n + 1 > l - 1 {
                assert(buf[h + (l - 1)] == one[l - 1]);
                assert(one[l - 1] == item.text[l - 2]);
            } else {
                assert forall|j: int| 0 <= j < n implies item.text[j] == name_of(key)[j] by {
                    assert(buf[h + (j + 1)] == one[j + 1]);
                    assert(one[j + 1] == item.text[j]);
                    assert(buf[r + (j + 1)] == key[j + 1]);
                }
                assert(item.text =~= name_of(key));
            }
        } else if r <= h + n {
            assert(one[r - h] == item.text[r - h - 1]);
        } else if r == h + n + 1 {
            assert(buf[h + (n + 2)] == one[n + 2]);
            assert(one[n + 2] == item.tail[0]);
            assert(buf[r + 1] == key[1]);
            assert(is_name_byte(key[1]));
        } else {
            assert(one[r - h] == item.tail[r - h - n - 2]);
        }
    }
}

/// A key stands first where the first item with its name begins.
proof fn lemma_first_item(buf: Seq<u8>, head: Seq<u8>, items: Seq<Item>, m: int, key: Seq<u8>)
    requires
        buf == head + spell(items),
        forall|r: int| 0 <= r < head.len() ==> !#[trigger] occurs_at(buf, key, r),
        are_items(items),
        is_key(key),
        0 <= m < items.len(),
        items[m].text == name_of(key),
        lacks(items.take(m), key),
    ensures
        first_occurrence(buf, key) == Some((head.len() + spell(items.take(m)).len()) as int),
    decreases m,
{
    let first = items[0];
    let rest = spell(items.drop_first());
    assert(buf =~= head + spell_one(first) + rest);
    if m == 0 {
        lemma_key_is_quoted(key);
        assert(items.take(0) =~= Seq::empty());
        let p = head.len() as int;
        assert(buf.subrange(p, p + key.len()) =~= key);
        lemma_first_occurrence(buf, key, p);
    } else {
        assert(items.take(m)[0] == first);
        let longer = head + spell_one(first);
        assert forall|r: int| 0 <= r < longer.len() implies !#[trigger] occurs_at(buf, key, r) by {
            if r >= head.len() {
                lemma_not_in_item(buf, head, first, rest, key, r);
            }
        }
        let others = items.drop_first();
        assert(others.take(m - 1) =~= items.take(m).drop_first());
        assert forall|i: int| 0 <= i < others.take(m - 1).len() implies (#[trigger] others.take(
            m - 1,
        )[i]).text != name_of(key) by {
            assert(others.take(m - 1)[i] == items.take(m)[i + 1]);
        }
        assert forall|i: int| 0 <= i < others.len() implies is_item(#[trigger] others[i]) by {
            assert(others[i] == items[i + 1]);
        }
        lemma_first_item(buf, longer, others, m - 1, key);
    }
}

/// A key in items behind an opening brace.
pub proof fn lemma_first_in_object(items: Seq<Item>, m: int, key: Seq<u8>)
    requires
        are_items(items),
        is_key(key),
        0 <= m < items.len(),
        items[m].text == name_of(key),
        lacks(items.take(m), key),
    ensures
        ({
            let before = seq![123u8] + spell(items.take(m));
            let buf = seq![123u8] + spell(items);
            &&& first_occurrence(buf, key) == Some(before.len() as int)
            &&& buf == before + key + items[m].tail + spell(items.skip(m + 1))
        }),
{
    let head = seq![123u8];
    let buf = head + spell(items);
    assert forall|r: int| 0 <= r < head.len() implies !#[trigger] occurs_at(buf, key, r) by {
        if occurs_at(buf, key, r) {
            assert(buf.subrange(r, r + key.len())[0] == buf[r]);
        }
    }
    lemma_first_item(buf, head, items, m, key);
    lemma_spell_at(items, m);
    lemma_key_is_quoted(key);
    assert(buf =~= head + spell(items.take(m)) + key + items[m].tail + spell(items.skip(m + 1)));
}

/// A value stands right behind the colon of its field.
proof fn lemma_field_start(buf: Seq<u8>, before: Seq<u8>, key: Seq<u8>, value: Seq<u8>)
    requires
        buf == before + key + seq![58u8] + value,
        first_occurrence(buf, key) == Some(before.len() as int),
        value.len() > 0,
        !ByteSet::Blank.holds(value[0]),
    ensures
        field_start(buf, key) == Some((before.len() + key.len() + 1) as int),
        (before.len() + key.len() + 1 + value.len()) == buf.len(),
        forall|j: int|
            0 <= j < value.len() ==> #[trigger] value[j] == buf[before.len() + key.len() + 1 + j],
{
    let at = (before.len() + key.len()) as int;
    assert(buf[at] == 58);
    assert(run_end(buf, at, ByteSet::NotColon) == at);
    assert(buf[at + 1] == value[0]);
    assert(run_end(buf, at + 1, ByteSet::Blank) == at + 1);
}

/// A run of bytes of a set ends where another byte comes.
pub proof fn lemma_run(buf: Seq<u8>, i: int, e: int, set: ByteSet)
    requires
        0 <= i <= e < buf.len(),
        forall|j: int| i <= j < e ==> set.holds(#[trigger] buf[j]),
        !set.holds(buf[e]),
    ensures
        run_end(buf, i, set) == e,
    decreases e - i,
{
    if i < e {
        lemma_run(buf, i + 1, e, set);
    }
}

/// A number reads back.
pub proof fn lemma_number(
    buf: Seq<u8>,
    before: Seq<u8>,
    key: Seq<u8>,
    token: Seq<u8>,
    after: Seq<u8>,
)
    requires
        buf == before + key + seq![58u8] + (token + after),
        first_occurrence(buf, key) == Some(before.len() as int),
        token.len() > 0,
        is_number_token(token),
        after.len() > 0,
        !ByteSet::Number.holds(after[0]),
    ensures
        number_field(buf, key) == Some(token),
{
    let value = token + after;
    let v = (before.len() + key.len() + 1) as int;
    let e = v + token.len();
    assert(ByteSet::Number.holds(token[0]));
    assert(value[0] == token[0]);
    lemma_field_start(buf, before, key, value);
    assert forall|j: int| v <= j < e implies ByteSet::Number.holds(#[trigger] buf[j]) by {
        assert(value[j - v] == token[j - v]);
        assert(value[j - v] == buf[v + (j - v)]);
        assert(ByteSet::Number.holds(token[j - v]));
    }
    assert(value[token.len() as int] == after[0]);
    assert(buf[e] == after[0]);
    lemma_run(buf, v, e, ByteSet::Number);
    assert forall|j: int| 0 <= j < token.len() implies buf.subrange(v, e)[j] == token[j] by {
        assert(value[j] == buf[v + j]);
    }
    assert(buf.subrange(v, e) =~= token);
}

/// A string reads back.
pub proof fn lemma_text(buf: Seq<u8>, before: Seq<u8>, key: Seq<u8>, text: Seq<u8>, after: Seq<u8>)
    requires
        buf == before + key + seq![58u8] + (quoted(text) + after),
        first_occurrence(buf, key) == Some(before.len() as int),
        is_unescaped(text),
    ensures
        text_field(buf, key) == Some(text),
{
    let value = quoted(text) + after;
    let v = (before.len() + key.len() + 1) as int;
    let e = v + 1 + text.len();
    lemma_field_start(buf, before, key, value);
    assert(value[0] == buf[v + 0]);
    assert forall|j: int| v + 1 <= j < e implies ByteSet::NotQuote.holds(#[trigger] buf[j]) by {
        assert(value[j - v] == text[j - v - 1]);
        assert(value[j - v] == buf[v + (j - v)]);
    }
    assert(value[text.len() as int + 1] == 34);
    assert(buf[v + (text.len() + 1)] == 34);
    lemma_run(buf, v + 1, e, ByteSet::NotQuote);
    assert forall|j: int| 0 <= j < text.len() implies buf.subrange(v + 1, e)[j] == text[j] by {
        assert(value[j + 1] == text[j]);
        assert(value[j + 1] == buf[v + (j + 1)]);
    }
    assert(buf.subrange(v + 1, e) =~= text);
}

/// How a truth value is spelled.
pub open spec fn flag_bytes(flag: bool) -> Seq<u8> {
    if flag {
        "true".spec_bytes()
    } else {
        "false".spec_bytes()
    }
}

pub proof fn lemma_flag_bytes()
    ensures
        "true".spec_bytes().len() == 4,
        "true".spec_bytes()[0] == 116,
        "false".spec_bytes().len() == 5,
        "false".spec_bytes()[0] == 102,
        forall|i: int| 0 <= i < 4 ==> 97 <= #[trigger] "true".spec_bytes()[i] <= 122,
        forall|i: int| 0 <= i < 5 ==> 97 <= #[trigger] "false".spec_bytes()[i] <= 122,
{
    reveal_strlit("true");
    vstd::utf8::is_ascii_chars_encode_utf8("true"@);
    reveal_strlit("false");
    vstd::utf8::is_ascii_chars_encode_utf8("false"@);
    assert("true"@[0] as u8 == "true".spec_bytes()[0]);
    assert("false"@[0] as u8 == "false".spec_bytes()[0]);
    assert forall|i: int| 0 <= i < 4 implies 97 <= #[trigger] "true".spec_bytes()[i] <= 122 by {
        assert("true"@[i] as u8 == "true".spec_bytes()[i]);
    }
    assert forall|i: int| 0 <= i < 5 implies 97 <= #[trigger] "false".spec_bytes()[i] <= 122 by {
        assert("false"@[i] as u8 == "false".spec_bytes()[i]);
    }
}

/// A truth value reads back.
pub proof fn lemma_flag(buf: Seq<u8>, before: Seq<u8>, key: Seq<u8>, flag: bool, after: Seq<u8>)
    requires
        buf == before + key + seq![58u8] + (flag_bytes(flag) + after),
        first_occurrence(buf, key) == Some(before.len() as int),
    ensures
        flag_field(buf, key) == Some(flag),
{
    let word = flag_bytes(flag);
    let value = word + after;
    let v = (before.len() + key.len() + 1) as int;
    lemma_flag_bytes();
    assert(value[0] == word[0]);
    lemma_field_start(buf, before, key, value);
    let rest = buf.subrange(v, buf.len() as int);
    assert forall|j: int| 0 <= j < value.len() implies rest[j] == value[j] by {
        assert(value[j] == buf[v + j]);
    }
    assert(rest =~= value);
    assert(rest.subrange(0, word.len() as int) =~= word);
    if !flag {
        if has_prefix(rest, "true".spec_bytes()) {
            assert(rest.subrange(0, 4)[0] == 116);
        }
    }
}

/// The items of a list of strings; `end` follows the last one.
pub open spec fn list_items(names: Seq<Seq<u8>>, end: Seq<u8>) -> Seq<Item>
    decreases names.len(),
{
    if names.len() == 0 {
        Seq::empty()
    } else {
        seq![
            Item {
                text: names[0],
                tail: if names.len() == 1 {
                    end
                } else {
                    seq![44u8]
                },
            },
        ] + list_items(names.drop_first(), end)
    }
}

/// A list of strings reads back.
proof fn lemma_list(
    buf: Seq<u8>,
    before: Seq<u8>,
    names: Seq<Seq<u8>>,
    end: Seq<u8>,
    after: Seq<u8>,
)
    requires
        names.len() > 0,
        forall|i: int| 0 <= i < names.len() ==> is_unescaped(#[trigger] names[i]),
        end.len() > 0,
        end[0] == 93,
        buf == before + spell(list_items(names, end)) + after,
    ensures
        quoted_strings(buf, before.len() as int) == names,
    decreases names.len(),
{
    let text = names[0];
    let others = names.drop_first();
    let items = list_items(names, end);
    let tail = items[0].tail;
    let i = before.len() as int;
    let e = i + 1 + text.len();
    assert(items.drop_first() =~= list_items(others, end));
    assert(items[0].text == text);
    let rest = spell(list_items(others, end));
    assert(buf =~= before + (quoted(text) + tail) + rest + after);
    assert(buf =~= before + quoted(text) + tail + rest + after);
    assert(buf[i] == quoted(text)[0]);
    assert forall|j: int| i + 1 <= j < e implies ByteSet::NotQuote.holds(#[trigger] buf[j]) by {
        assert(buf[j] == quoted(text)[j - i]);
        assert(quoted(text)[j - i] == text[j - i - 1]);
    }
    assert(buf[e] == quoted(text)[text.len() as int + 1]);
    lemma_run(buf, i + 1, e, ByteSet::NotQuote);
    assert(buf.subrange(i + 1, e) =~= text);
    assert(quoted_strings(buf, i) == seq![text] + quoted_strings(buf, e + 1));
    assert(buf[e + 1] == tail[0]);
    if names.len() == 1 {
        assert(quoted_strings(buf, e + 1) =~= Seq::empty());
        assert(names =~= seq![text] + Seq::<Seq<u8>>::empty());
    } else {
        let longer = before + quoted(text) + tail;
        assert(buf =~= longer + rest + after);
        assert forall|j: int| 0 <= j < others.len() implies is_unescaped(#[trigger] others[j]) by {
            assert(others[j] == names[j + 1]);
        }
        lemma_list(buf, longer, others, end, after);
        assert(longer.len() == e + 2);
        assert(quoted_strings(buf, e + 1) == quoted_strings(buf, e + 2));
        assert(names =~= seq![text] + others);
    }
}

/// An array of strings reads back.
pub proof fn lemma_array(
    buf: Seq<u8>,
    before: Seq<u8>,
    key: Seq<u8>,
    names: Seq<Seq<u8>>,
    end: Seq<u8>,
    after: Seq<u8>,
)
    requires
        forall|i: int| 0 <= i < names.len() ==> is_unescaped(#[trigger] names[i]),
        end.len() > 0,
        end[0] == 93,
        first_occurrence(buf, key) == Some(before.len() as int),
        buf == before + key + seq![58u8, 91u8] + (if names.len() == 0 {
            end
        } else {
            spell(list_items(names, end))
        }) + after,
    ensures
        array_field(buf, key) == names,
{
    let at = (before.len() + key.len()) as int;
    assert(buf[at] == 58);
    assert(buf[at + 1] == 91);
    assert(run_end(buf, at + 1, ByteSet::GapOrColon) == at + 1);
    assert(run_end(buf, at, ByteSet::GapOrColon) == at + 1);
    if names.len() == 0 {
        assert(buf[at + 2] == end[0]);
        assert(quoted_strings(buf, at + 2) =~= names);
    } else {
        let longer = before + key + seq![58u8, 91u8];
        lemma_list(buf, longer, names, end, after);
        assert(longer.len() == at + 2);
    }
}

/// No quotes and no braces.
pub open spec fn is_flat(s: Seq<u8>) -> bool {
    forall|i: int| 0 <= i < s.len() ==> #[trigger] s[i] != 34 && s[i] != 123 && s[i] != 125
}

/// The items make up the inside of an object: only the last one has a brace behind it, at the very
/// end.
pub open spec fn is_object_inside(items: Seq<Item>) -> bool {
    &&& items.len() > 0
    &&& forall|i: int| 0 <= i < items.len() ==> is_unescaped((#[trigger] items[i]).text)
    &&& forall|i: int| 0 <= i < items.len() - 1 ==> is_flat((#[trigger] items[i]).tail)
    &&& items.last().tail.len() > 0
    &&& items.last().tail.last() == 125
    &&& is_flat(items.last().tail.drop_last())
}

/// A reader stands inside of one object, outside of strings.
spec fn inside() -> Nesting {
    Nesting { depth: 1, in_str: false, esc: false }
}

/// A reader that stands inside of one object at `i` stays there up to `e`.
spec fn stays_inside(buf: Seq<u8>, start: int, i: int, e: int) -> bool {
    &&& nesting(buf, start, e) == inside()
    &&& forall|j: int| i <= j <= e ==> (#[trigger] nesting(buf, start, j)).depth == 1
}

proof fn lemma_flat_stays(buf: Seq<u8>, start: int, i: int, s: Seq<u8>, n: int)
    requires
        start < i,
        nesting(buf, start, i) == inside(),
        is_flat(s),
        0 <= n <= s.len(),
        forall|j: int| 0 <= j < s.len() ==> #[trigger] s[j] == buf[i + j],
    ensures
        stays_inside(buf, start, i, i + n),
    decreases n,
{
    if n > 0 {
        lemma_flat_stays(buf, start, i, s, n - 1);
        assert(s[n - 1] == buf[i + (n - 1)]);
        assert(nesting(buf, start, i + n) == nest(nesting(buf, start, i + n - 1), buf[i + n - 1]));
    }
}

/// Within a quoted string the depth does not change.
proof fn lemma_text_stays(buf: Seq<u8>, start: int, i: int, text: Seq<u8>, n: int)
    requires
        start < i,
        nesting(buf, start, i) == inside(),
        buf[i] == 34,
        is_unescaped(text),
        0 <= n <= text.len(),
        forall|j: int| 0 <= j < text.len() ==> #[trigger] text[j] == buf[i + 1 + j],
    ensures
        nesting(buf, start, i + 1 + n) == (Nesting { depth: 1, in_str: true, esc: false }),
        forall|j: int| i <= j <= i + 1 + n ==> (#[trigger] nesting(buf, start, j)).depth == 1,
    decreases n,
{
    if n == 0 {
        assert(nesting(buf, start, i + 1) == nest(nesting(buf, start, i), buf[i]));
    } else {
        lemma_text_stays(buf, start, i, text, n - 1);
        assert(text[n - 1] == buf[i + 1 + (n - 1)]);
        assert(nesting(buf, start, i + 1 + n) == nest(nesting(buf, start, i + n), buf[i + n]));
    }
}

proof fn lemma_quoted_stays(buf: Seq<u8>, start: int, i: int, text: Seq<u8>)
    requires
        start < i,
        nesting(buf, start, i) == inside(),
        is_unescaped(text),
        forall|j: int| 0 <= j < quoted(text).len() ==> #[trigger] quoted(text)[j] == buf[i + j],
    ensures
        stays_inside(buf, start, i, (i + quoted(text).len()) as int),
{
    let q = quoted(text);
    let n = text.len() as int;
    assert(q[0] == buf[i + 0]);
    assert forall|j: int| 0 <= j < text.len() implies #[trigger] text[j] == buf[i + 1 + j] by {
        assert(q[j + 1] == text[j]);
        assert(q[j + 1] == buf[i + (j + 1)]);
    }
    lemma_text_stays(buf, start, i, text, n);
    assert(q[n + 1] == buf[i + (n + 1)]);
    assert(nesting(buf, start, i + 2 + n) == nest(nesting(buf, start, i + 1 + n), buf[i + 1 + n]));
}

/// `s` stands in `buf` at `i`.
spec fn stands(buf: Seq<u8>, i: int, s: Seq<u8>) -> bool {
    forall|j: int| 0 <= j < s.len() ==> #[trigger] s[j] == buf[i + j]
}

proof fn lemma_stands_parts(buf: Seq<u8>, i: int, a: Seq<u8>, b: Seq<u8>)
    requires
        stands(buf, i, a + b),
    ensures
        stands(buf, i, a),
        stands(buf, (i + a.len()) as int, b),
{
    assert forall|j: int| 0 <= j < a.len() implies #[trigger] a[j] == buf[i + j] by {
        assert((a + b)[j] == buf[i + j]);
    }
    assert forall|j: int| 0 <= j < b.len() implies #[trigger] b[j] == buf[i + a.len() + j] by {
        assert((a + b)[a.len() + j] == buf[i + (a.len() + j)]);
    }
}

/// Over items without braces a reader stays inside of the object.
proof fn lemma_items_stay(buf: Seq<u8>, start: int, i: int, items: Seq<Item>)
    requires
        start < i,
        nesting(buf, start, i) == inside(),
        stands(buf, i, spell(items)),
        forall|k: int| 0 <= k < items.len() ==> is_unescaped((#[trigger] items[k]).text),
        forall|k: int| 0 <= k < items.len() ==> is_flat((#[trigger] items[k]).tail),
    ensures
        stays_inside(buf, start, i, (i + spell(items).len()) as int),
    decreases items.len(),
{
    if items.len() > 0 {
        let q = quoted(items[0].text);
        let tail = items[0].tail;
        let others = items.drop_first();
        let one = spell_one(items[0]);
        lemma_stands_parts(buf, i, one, spell(others));
        lemma_stands_parts(buf, i, q, tail);
        lemma_quoted_stays(buf, start, i, items[0].text);
        let m = (i + q.len()) as int;
        lemma_flat_stays(buf, start, m, tail, tail.len() as int);
        assert forall|k: int| 0 <= k < others.len() implies is_unescaped(
            (#[trigger] others[k]).text,
        ) && is_flat(others[k].tail) by {
            assert(others[k] == items[k + 1]);
        }
        lemma_items_stay(buf, start, m + tail.len(), others);
    }
}

/// An object reads back.
pub proof fn lemma_object(
    buf: Seq<u8>,
    before: Seq<u8>,
    key: Seq<u8>,
    items: Seq<Item>,
    after: Seq<u8>,
)
    requires
        is_object_inside(items),
        first_occurrence(buf, key) == Some(before.len() as int),
        buf == before + key + seq![58u8, 123u8] + spell(items) + after,
    ensures
        object(buf, key) == Some(seq![123u8] + spell(items)),
{
    let at = (before.len() + key.len()) as int;
    let start = at + 1;
    let front = items.drop_last();
    let last = items.last();
    let n = (items.len() - 1) as int;
    assert(buf[at] == 58 && buf[at + 1] == 123);
    assert(run_end(buf, at + 1, ByteSet::BlankOrColon) == at + 1);
    assert(run_end(buf, at, ByteSet::BlankOrColon) == at + 1);
    assert(nesting(buf, start, start) == (Nesting { depth: 0, in_str: false, esc: false }));
    assert(nesting(buf, start, start + 1) == nest(nesting(buf, start, start), buf[start]));
    lemma_spell_at(items, n);
    assert(items.take(n) =~= front);
    assert(items.skip(n + 1) =~= Seq::empty());
    assert(spell(items) =~= spell(front) + spell_one(last));
    assert forall|j: int| 0 <= j < spell(items).len() implies #[trigger] spell(items)[j]
        == buf[start + 1 + j] by {}
    assert(stands(buf, start + 1, spell(front) + spell_one(last)));
    lemma_stands_parts(buf, start + 1, spell(front), spell_one(last));
    lemma_items_stay(buf, start, start + 1, front);
    let i = start + 1 + spell(front).len();
    let q = quoted(last.text);
    lemma_stands_parts(buf, i, q, last.tail);
    assert(last == items[n]);
    lemma_quoted_stays(buf, start, i, last.text);
    let m = (i + q.len()) as int;
    let flat = last.tail.drop_last();
    assert(stands(buf, m, flat)) by {
        assert forall|j: int| 0 <= j < flat.len() implies #[trigger] flat[j] == buf[m + j] by {
            assert(last.tail[j] == buf[m + j]);
        }
    }
    lemma_flat_stays(buf, start, m, flat, flat.len() as int);
    let c = (m + flat.len()) as int;
    assert(last.tail[flat.len() as int] == buf[m + flat.len()]);
    assert(nesting(buf, start, c + 1) == nest(nesting(buf, start, c), buf[c]));
    assert(closes_at(buf, start, c + 1));
    lemma_object_end(buf, start, c + 1);
    assert(c + 1 == start + 1 + spell(items).len());
    assert(buf.subrange(start, c + 1) =~= seq![123u8] + spell(items));
}

} // verus!
