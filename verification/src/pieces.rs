//! Quoted strings in a row, with blanks and other text behind them: where a name stands first, and
//! what reads back behind it.

use vstd::prelude::*;
use vstd::string::StringSliceAdditionalSpecFns;
use crate::items::{
    flag_bytes,
    is_key,
    is_name_byte,
    is_unescaped,
    lacks,
    lemma_flag_bytes,
    lemma_key_is_quoted,
    lemma_run,
    lemma_spell_at,
    name_of,
    quoted,
    spell,
    spell_one,
    Item,
};
use crate::parser::{
    array_field,
    closes_at,
    field_start,
    flag_field,
    is_number_token,
    lemma_object_end,
    nest,
    nesting,
    number_field,
    object,
    quoted_strings,
    text_field,
    Nesting,
};
use crate::scan::{
    first_occurrence,
    found_at,
    has_prefix,
    law_first_occurrences,
    lemma_first_occurrence,
    occurs_at,
    occurs_first_at,
    ByteSet,
};

verus! {

/// No quotes.
pub open spec fn is_quoteless(s: Seq<u8>) -> bool {
    forall|i: int| 0 <= i < s.len() ==> #[trigger] s[i] != 34
}

/// The string has no quotes or backslashes; what follows has no quotes, and does not begin with a
/// byte of a name.
pub open spec fn is_piece(item: Item) -> bool {
    &&& is_unescaped(item.text)
    &&& item.tail.len() > 0
    &&& !is_name_byte(item.tail[0])
    &&& is_quoteless(item.tail)
}

/// Every one is such a piece.
pub open spec fn are_pieces(items: Seq<Item>) -> bool {
    forall|i: int| 0 <= i < items.len() ==> is_piece(#[trigger] items[i])
}

/// A key does not stand anywhere within an item with another string.
proof fn lemma_not_in_item(
    buf: Seq<u8>,
    head: Seq<u8>,
    item: Item,
    rest: Seq<u8>,
    key: Seq<u8>,
    r: int,
)
    requires
        buf == head + spell_one(item) + rest,
        is_piece(item),
        is_key(key),
        item.text != name_of(key),
        head.len() <= r < head.len() + spell_one(item).len(),
    ensures
        !occurs_at(buf, key, r),
{
    let h = head.len() as int;
    let n = item.text.len() as int;
    let l = key.len() as int;
    let one = spell_one(item);
    assert(one.len() == n + 2 + item.tail.len());
    assert forall|j: int| 0 <= j < one.len() implies #[trigger] buf[h + j] == one[j] by {}
    if occurs_at(buf, key, r) {
        assert forall|j: int| 0 <= j < l implies #[trigger] buf[r + j] == key[j] by {
            assert(buf.subrange(r, r + l)[j] == key[j]);
        }
        assert(buf[r + 0] == 34);
        assert(buf[h + (r - h)] == one[r - h]);
        if r == h {
            assert(buf[h + (n + 1)] == one[n + 1]);
            assert(one[n + 1] == 34);
            assert(buf[r + (l - 1)] == key[l - 1]);
            if n + 1 < l - 1 {
                assert(buf[r + (n + 1)] == key[n + 1]);
                assert(is_name_byte(key[n + 1]));
            } else if n + 1 > l - 1 {
                assert(buf[h + (l - 1)] == one[l - 1]);
                assert(one[l - 1] == item.text[l - 2]);
            } else {
                assert forall|j: int| 0 <= j < n implies item.text[j] == name_of(key)[j] by {
                    assert(buf[h + (j + 1)] == one[j + 1]);
                    assert(one[j + 1] == item.text[j]);
                    assert(buf[r + (j + 1)] == key[j + 1]);
                }
                assert(item.text =~= name_of(key));
            }
        } else if r <= h + n {
            assert(one[r - h] == item.text[r - h - 1]);
        } else if r == h + n + 1 {
            assert(buf[h + (n + 2)] == one[n + 2]);
            assert(one[n + 2] == item.tail[0]);
            assert(buf[r + 1] == key[1]);
            assert(is_name_byte(key[1]));
        } else {
            assert(one[r - h] == item.tail[r - h - n - 2]);
        }
    }
}

/// A key stands first where the first item with its name begins.
proof fn lemma_first_item(buf: Seq<u8>, head: Seq<u8>, items: Seq<Item>, m: int, key: Seq<u8>)
    requires
        buf == head + spell(items),
        forall|r: int| 0 <= r < head.len() ==> !#[trigger] occurs_at(buf, key, r),
        are_pieces(items),
        is_key(key),
        0 <= m < items.len(),
        items[m].text == name_of(key),
        lacks(items.take(m), key),
    ensures
        first_occurrence(buf, key) == Some((head.len() + spell(items.take(m)).len()) as int),
    decreases m,
{
    let first = items[0];
    let rest = spell(items.drop_first());
    assert(buf =~= head + spell_one(first) + rest);
    if m == 0 {
        lemma_key_is_quoted(key);
        assert(items.take(0) =~= Seq::empty());
        let p = head.len() as int;
        assert(buf.subrange(p, p + key.len()) =~= key);
        lemma_first_occurrence(buf, key, p);
    } else {
        assert(items.take(m)[0] == first);
        let longer = head + spell_one(first);
        assert forall|r: int| 0 <= r < longer.len() implies !#[trigger] occurs_at(buf, key, r) by {
            if r >= head.len() {
                lemma_not_in_item(buf, head, first, rest, key, r);
            }
        }
        let others = items.drop_first();
        assert(others.take(m - 1) =~= items.take(m).drop_first());
        assert forall|i: int| 0 <= i < others.take(m - 1).len() implies (#[trigger] others.take(
            m - 1,
        )[i]).text != name_of(key) by {
            assert(others.take(m - 1)[i] == items.take(m)[i + 1]);
        }
        assert forall|i: int| 0 <= i < others.len() implies is_piece(#[trigger] others[i]) by {
            assert(others[i] == items[i + 1]);
        }
        lemma_first_item(buf, longer, others, m - 1, key);
    }
}

/// A key in items behind bytes without quotes.
pub proof fn lemma_first_behind(head: Seq<u8>, items: Seq<Item>, m: int, key: Seq<u8>)
    requires
        is_quoteless(head),
        are_pieces(items),
        is_key(key),
        0 <= m < items.len(),
        items[m].text == name_of(key),
        lacks(items.take(m), key),
    ensures
        ({
            let before = head + spell(items.take(m));
            let buf = head + spell(items);
            &&& first_occurrence(buf, key) == Some(before.len() as int)
            &&& buf == before + key + items[m].tail + spell(items.skip(m + 1))
        }),
{
    let buf = head + spell(items);
    assert forall|r: int| 0 <= r < head.len() implies !#[trigger] occurs_at(buf, key, r) by {
        if occurs_at(buf, key, r) {
            assert(buf.subrange(r, r + key.len())[0] == buf[r]);
            assert(buf[r] == head[r]);
        }
    }
    lemma_first_item(buf, head, items, m, key);
    lemma_spell_at(items, m);
    lemma_key_is_quoted(key);
    assert(buf =~= head + spell(items.take(m)) + key + items[m].tail + spell(items.skip(m + 1)));
}

/// A key that is the name of no item stands nowhere.
proof fn lemma_nowhere_from(buf: Seq<u8>, head: Seq<u8>, items: Seq<Item>, key: Seq<u8>)
    requires
        buf == head + spell(items),
        forall|r: int| 0 <= r < head.len() ==> !#[trigger] occurs_at(buf, key, r),
        are_pieces(items),
        is_key(key),
        lacks(items, key),
    ensures
        forall|r: int| !#[trigger] occurs_at(buf, key, r),
    decreases items.len(),
{
    if items.len() == 0 {
        assert(buf =~= head);
        assert forall|r: int| !#[trigger] occurs_at(buf, key, r) by {
            if occurs_at(buf, key, r) {
                assert(r < head.len());
            }
        }
    } else {
        let first = items[0];
        let others = items.drop_first();
        let rest = spell(others);
        let longer = head + spell_one(first);
        assert(buf =~= head + spell_one(first) + rest);
        assert forall|r: int| 0 <= r < longer.len() implies !#[trigger] occurs_at(buf, key, r) by {
            if r >= head.len() {
                lemma_not_in_item(buf, head, first, rest, key, r);
            }
        }
        assert forall|i: int| 0 <= i < others.len() implies is_piece(#[trigger] others[i])
            && others[i].text != name_of(key) by {
            assert(others[i] == items[i + 1]);
        }
        lemma_nowhere_from(buf, longer, others, key);
    }
}

pub proof fn lemma_nowhere(head: Seq<u8>, items: Seq<Item>, key: Seq<u8>)
    requires
        is_quoteless(head),
        are_pieces(items),
        is_key(key),
        lacks(items, key),
    ensures
        first_occurrence(head + spell(items), key) is None,
{
    let buf = head + spell(items);
    assert forall|r: int| 0 <= r < head.len() implies !#[trigger] occurs_at(buf, key, r) by {
        if occurs_at(buf, key, r) {
            assert(buf.subrange(r, r + key.len())[0] == buf[r]);
            assert(buf[r] == head[r]);
        }
    }
    lemma_nowhere_from(buf, head, items, key);
    if exists|p: int| occurs_first_at(buf, key, p) {
        let p = choose|p: int| occurs_first_at(buf, key, p);
        assert(occurs_at(buf, key, p));
    }
}

/// Blanks: spaces, tabs, carriage returns and line feeds.
pub open spec fn is_blank(s: Seq<u8>) -> bool {
    forall|i: int|
        0 <= i < s.len() ==> #[trigger] s[i] == 32 || s[i] == 9 || s[i] == 13 || s[i] == 10
}

/// Spaces and tabs.
pub open spec fn is_gap(s: Seq<u8>) -> bool {
    forall|i: int| 0 <= i < s.len() ==> #[trigger] s[i] == 32 || s[i] == 9
}

/// Blanks and colons.
pub open spec fn is_colons(s: Seq<u8>) -> bool {
    forall|i: int|
        0 <= i < s.len() ==> #[trigger] s[i] == 32 || s[i] == 9 || s[i] == 13 || s[i] == 10
            || s[i] == 58
}

/// `s` stands in `buf` at `i`.
pub open spec fn stands(buf: Seq<u8>, i: int, s: Seq<u8>) -> bool {
    &&& 0 <= i
    &&& i + s.len() <= buf.len()
    &&& forall|j: int| 0 <= j < s.len() ==> #[trigger] s[j] == buf[i + j]
}

pub proof fn lemma_stands_parts(buf: Seq<u8>, i: int, a: Seq<u8>, b: Seq<u8>)
    requires
        stands(buf, i, a + b),
    ensures
        stands(buf, i, a),
        stands(buf, (i + a.len()) as int, b),
{
    assert forall|j: int| 0 <= j < a.len() implies #[trigger] a[j] == buf[i + j] by {
        assert((a + b)[j] == buf[i + j]);
    }
    assert forall|j: int| 0 <= j < b.len() implies #[trigger] b[j] == buf[i + a.len() + j] by {
        assert((a + b)[a.len() + j] == buf[i + (a.len() + j)]);
    }
}

proof fn lemma_stands_in(before: Seq<u8>, s: Seq<u8>)
    ensures
        stands(before + s, before.len() as int, s),
{
}

/// Where the name, the blanks and the value of a field stand.
#[verifier::spinoff_prover]
proof fn lemma_field_places(
    buf: Seq<u8>,
    before: Seq<u8>,
    key: Seq<u8>,
    a: Seq<u8>,
    b: Seq<u8>,
    value: Seq<u8>,
)
    requires
        buf == before + (key + (a + (seq![58u8] + (b + value)))),
    ensures
        ({
            let at = (before.len() + key.len()) as int;
            let colon = (at + a.len()) as int;
            let v = (colon + 1 + b.len()) as int;
            &&& stands(buf, at, a)
            &&& stands(buf, colon + 1, b)
            &&& stands(buf, v, value)
            &&& v + value.len() == buf.len()
            &&& buf[colon] == 58
        }),
{
    let c = seq![58u8];
    let at = (before.len() + key.len()) as int;
    let colon = (at + a.len()) as int;
    lemma_stands_in(before, key + (a + (c + (b + value))));
    lemma_stands_parts(buf, before.len() as int, key, a + (c + (b + value)));
    lemma_stands_parts(buf, at, a, c + (b + value));
    lemma_stands_parts(buf, colon, c, b + value);
    lemma_stands_parts(buf, colon + 1, b, value);
    assert(c[0] == buf[colon + 0]);
}

/// A value stands behind the colon of its field, with blanks around the colon.
#[verifier::spinoff_prover]
proof fn lemma_field_start(
    buf: Seq<u8>,
    before: Seq<u8>,
    key: Seq<u8>,
    a: Seq<u8>,
    b: Seq<u8>,
    value: Seq<u8>,
)
    requires
        buf == before + (key + (a + (seq![58u8] + (b + value)))),
        first_occurrence(buf, key) == Some(before.len() as int),
        is_blank(a),
        is_blank(b),
        value.len() > 0,
        !ByteSet::Blank.holds(value[0]),
    ensures
        ({
            let v = (before.len() + key.len() + a.len() + 1 + b.len()) as int;
            &&& field_start(buf, key) == Some(v)
            &&& stands(buf, v, value)
            &&& v + value.len() == buf.len()
        }),
{
    let at = (before.len() + key.len()) as int;
    let colon = (at + a.len()) as int;
    let v = (colon + 1 + b.len()) as int;
    lemma_field_places(buf, before, key, a, b, value);
    assert forall|j: int| at <= j < colon implies ByteSet::NotColon.holds(#[trigger] buf[j]) by {
        assert(a[j - at] == buf[at + (j - at)]);
    }
    lemma_run(buf, at, colon, ByteSet::NotColon);
    assert forall|j: int| colon + 1 <= j < v implies ByteSet::Blank.holds(#[trigger] buf[j]) by {
        assert(b[j - colon - 1] == buf[colon + 1 + (j - colon - 1)]);
    }
    assert(value[0] == buf[v + 0]);
    lemma_run(buf, colon + 1, v, ByteSet::Blank);
}

/// A number reads back.
pub proof fn lemma_number(
    buf: Seq<u8>,
    before: Seq<u8>,
    key: Seq<u8>,
    a: Seq<u8>,
    b: Seq<u8>,
    token: Seq<u8>,
    after: Seq<u8>,
)
    requires
        buf == before + (key + (a + (seq![58u8] + (b + (token + after))))),
        first_occurrence(buf, key) == Some(before.len() as int),
        is_blank(a),
        is_blank(b),
        token.len() > 0,
        is_number_token(token),
        after.len() > 0,
        !ByteSet::Number.holds(after[0]),
    ensures
        number_field(buf, key) == Some(token),
{
    let value = token + after;
    let v = (before.len() + key.len() + a.len() + 1 + b.len()) as int;
    let e = v + token.len();
    assert(ByteSet::Number.holds(token[0]));
    assert(value[0] == token[0]);
    lemma_field_start(buf, before, key, a, b, value);
    lemma_stands_parts(buf, v, token, after);
    assert forall|j: int| v <= j < e implies ByteSet::Number.holds(#[trigger] buf[j]) by {
        assert(token[j - v] == buf[v + (j - v)]);
        assert(ByteSet::Number.holds(token[j - v]));
    }
    assert(after[0] == buf[e + 0]);
    lemma_run(buf, v, e, ByteSet::Number);
    assert forall|j: int| 0 <= j < token.len() implies buf.subrange(v, e)[j] == token[j] by {
        assert(token[j] == buf[v + j]);
    }
    assert(buf.subrange(v, e) =~= token);
}

/// A string reads back.
pub proof fn lemma_text(
    buf: Seq<u8>,
    before: Seq<u8>,
    key: Seq<u8>,
    a: Seq<u8>,
    b: Seq<u8>,
    text: Seq<u8>,
    after: Seq<u8>,
)
    requires
        buf == before + (key + (a + (seq![58u8] + (b + (quoted(text) + after))))),
        first_occurrence(buf, key) == Some(before.len() as int),
        is_blank(a),
        is_blank(b),
        is_unescaped(text),
    ensures
        text_field(buf, key) == Some(text),
{
    let q = quoted(text);
    let v = (before.len() + key.len() + a.len() + 1 + b.len()) as int;
    let e = v + 1 + text.len();
    lemma_field_start(buf, before, key, a, b, q + after);
    lemma_stands_parts(buf, v, q, after);
    assert(q[0] == buf[v + 0]);
    assert forall|j: int| v + 1 <= j < e implies ByteSet::NotQuote.holds(#[trigger] buf[j]) by {
        assert(q[j - v] == text[j - v - 1]);
        assert(q[j - v] == buf[v + (j - v)]);
    }
    assert(q[text.len() as int + 1] == buf[v + (text.len() as int + 1)]);
    lemma_run(buf, v + 1, e, ByteSet::NotQuote);
    assert forall|j: int| 0 <= j < text.len() implies buf.subrange(v + 1, e)[j] == text[j] by {
        assert(q[j + 1] == text[j]);
        assert(q[j + 1] == buf[v + (j + 1)]);
    }
    assert(buf.subrange(v + 1, e) =~= text);
}

/// A truth value reads back.
pub proof fn lemma_flag(
    buf: Seq<u8>,
    before: Seq<u8>,
    key: Seq<u8>,
    a: Seq<u8>,
    b: Seq<u8>,
    flag: bool,
    after: Seq<u8>,
)
    requires
        buf == before + (key + (a + (seq![58u8] + (b + (flag_bytes(flag) + after))))),
        first_occurrence(buf, key) == Some(before.len() as int),
        is_blank(a),
        is_blank(b),
    ensures
        flag_field(buf, key) == Some(flag),
{
    let word = flag_bytes(flag);
    let value = word + after;
    let v = (before.len() + key.len() + a.len() + 1 + b.len()) as int;
    lemma_flag_bytes();
    assert(value[0] == word[0]);
    lemma_field_start(buf, before, key, a, b, value);
    let rest = buf.subrange(v, buf.len() as int);
    assert forall|j: int| 0 <= j < value.len() implies rest[j] == value[j] by {
        assert(value[j] == buf[v + j]);
    }
    assert(rest =~= value);
    assert(rest.subrange(0, word.len() as int) =~= word);
    if !flag {
        if has_prefix(rest, "true".spec_bytes()) {
            assert(rest.subrange(0, 4)[0] == 116);
        }
    }
}

/// The items of a list of strings; `sep` follows each of them but the last, which `end` follows.
pub open spec fn list_pieces(names: Seq<Seq<u8>>, sep: Seq<u8>, end: Seq<u8>) -> Seq<Item>
    decreases names.len(),
{
    if names.len() == 0 {
        Seq::empty()
    } else {
        seq![
            Item {
                text: names[0],
                tail: if names.len() == 1 {
                    end
                } else {
                    sep
                },
            },
        ] + list_pieces(names.drop_first(), sep, end)
    }
}

/// No quotes and no closing brackets.
pub open spec fn is_within_array(s: Seq<u8>) -> bool {
    forall|i: int| 0 <= i < s.len() ==> #[trigger] s[i] != 34 && s[i] != 93
}

/// What stands between strings is passed over.
proof fn lemma_passed_over(buf: Seq<u8>, i: int, s: Seq<u8>)
    requires
        stands(buf, i, s),
        is_within_array(s),
    ensures
        quoted_strings(buf, i) == quoted_strings(buf, (i + s.len()) as int),
    decreases s.len(),
{
    if s.len() > 0 {
        let others = s.drop_first();
        assert(s =~= seq![s[0]] + others);
        lemma_stands_parts(buf, i, seq![s[0]], others);
        assert(s[0] == buf[i + 0]);
        assert forall|j: int| 0 <= j < others.len() implies #[trigger] others[j] != 34
            && others[j] != 93 by {
            assert(others[j] == s[j + 1]);
        }
        lemma_passed_over(buf, i + 1, others);
    }
}

/// A list of strings reads back.
proof fn lemma_list(
    buf: Seq<u8>,
    i: int,
    names: Seq<Seq<u8>>,
    sep: Seq<u8>,
    close: Seq<u8>,
    end: Seq<u8>,
)
    requires
        names.len() > 0,
        forall|k: int| 0 <= k < names.len() ==> is_unescaped(#[trigger] names[k]),
        is_within_array(sep),
        is_within_array(close),
        stands(buf, i, spell(list_pieces(names, sep, close + (seq![93u8] + end)))),
    ensures
        quoted_strings(buf, i) == names,
    decreases names.len(),
{
    let text = names[0];
    let others = names.drop_first();
    let items = list_pieces(names, sep, close + (seq![93u8] + end));
    let later = list_pieces(others, sep, close + (seq![93u8] + end));
    let tail = items[0].tail;
    let q = quoted(text);
    let e = i + 1 + text.len();
    assert(items.drop_first() =~= later);
    assert(items[0].text == text);
    lemma_stands_parts(buf, i, q + tail, spell(later));
    lemma_stands_parts(buf, i, q, tail);
    assert(q[0] == buf[i + 0]);
    assert forall|j: int| i + 1 <= j < e implies ByteSet::NotQuote.holds(#[trigger] buf[j]) by {
        assert(q[j - i] == buf[i + (j - i)]);
        assert(q[j - i] == text[j - i - 1]);
    }
    assert(q[text.len() as int + 1] == buf[i + (text.len() as int + 1)]);
    lemma_run(buf, i + 1, e, ByteSet::NotQuote);
    assert forall|j: int| 0 <= j < text.len() implies buf.subrange(i + 1, e)[j] == text[j] by {
        assert(q[j + 1] == buf[i + (j + 1)]);
        assert(q[j + 1] == text[j]);
    }
    assert(buf.subrange(i + 1, e) =~= text);
    assert(quoted_strings(buf, i) == seq![text] + quoted_strings(buf, e + 1));
    assert(e + 1 == i + q.len());
    if names.len() == 1 {
        lemma_stands_parts(buf, e + 1, close, seq![93u8] + end);
        lemma_passed_over(buf, e + 1, close);
        let c = (e + 1 + close.len()) as int;
        assert((seq![93u8] + end)[0] == buf[c + 0]);
        assert(quoted_strings(buf, c) =~= Seq::empty());
        assert(names =~= seq![text] + Seq::<Seq<u8>>::empty());
    } else {
        lemma_passed_over(buf, e + 1, sep);
        assert forall|j: int| 0 <= j < others.len() implies is_unescaped(#[trigger] others[j]) by {
            assert(others[j] == names[j + 1]);
        }
        assert((q + tail).len() == q.len() + sep.len());
        lemma_list(buf, e + 1 + sep.len(), others, sep, close, end);
        assert(names =~= seq![text] + others);
    }
}

/// An array of strings reads back.
pub proof fn lemma_array(
    buf: Seq<u8>,
    before: Seq<u8>,
    key: Seq<u8>,
    a: Seq<u8>,
    open: Seq<u8>,
    names: Seq<Seq<u8>>,
    sep: Seq<u8>,
    close: Seq<u8>,
    end: Seq<u8>,
    after: Seq<u8>,
)
    requires
        forall|i: int| 0 <= i < names.len() ==> is_unescaped(#[trigger] names[i]),
        forall|i: int|
            0 <= i < a.len() ==> #[trigger] a[i] == 32 || a[i] == 9 || a[i] == 58,
        is_within_array(open),
        is_within_array(sep),
        is_within_array(close),
        first_occurrence(buf, key) == Some(before.len() as int),
        buf == before + (key + (a + (seq![91u8] + (open + ((if names.len() == 0 {
            close + (seq![93u8] + end)
        } else {
            spell(list_pieces(names, sep, close + (seq![93u8] + end)))
        }) + after))))),
    ensures
        array_field(buf, key) == names,
{
    let list = if names.len() == 0 {
        close + (seq![93u8] + end)
    } else {
        spell(list_pieces(names, sep, close + (seq![93u8] + end)))
    };
    let at = (before.len() + key.len()) as int;
    let b = (at + a.len()) as int;
    let i = (b + 1 + open.len()) as int;
    lemma_stands_in(before, key + (a + (seq![91u8] + (open + (list + after)))));
    lemma_stands_parts(buf, before.len() as int, key, a + (seq![91u8] + (open + (list + after))));
    lemma_stands_parts(buf, at, a, seq![91u8] + (open + (list + after)));
    lemma_stands_parts(buf, b, seq![91u8], open + (list + after));
    lemma_stands_parts(buf, b + 1, open, list + after);
    lemma_stands_parts(buf, i, list, after);
    assert(seq![91u8][0] == buf[b + 0]);
    assert forall|j: int| at <= j < b implies ByteSet::GapOrColon.holds(#[trigger] buf[j]) by {
        assert(a[j - at] == buf[at + (j - at)]);
    }
    lemma_run(buf, at, b, ByteSet::GapOrColon);
    lemma_passed_over(buf, b + 1, open);
    if names.len() == 0 {
        lemma_stands_parts(buf, i, close, seq![93u8] + end);
        lemma_passed_over(buf, i, close);
        let c = (i + close.len()) as int;
        assert((seq![93u8] + end)[0] == buf[c + 0]);
        assert(quoted_strings(buf, c) =~= names);
    } else {
        lemma_list(buf, i, names, sep, close, end);
    }
}

/// How many braces are open behind `s`, where `d` are open before.
pub open spec fn depth_after(s: Seq<u8>, d: int) -> int
    decreases s.len(),
{
    if s.len() == 0 {
        d
    } else {
        let e = depth_after(s.drop_last(), d);
        if s.last() == 123 {
            e + 1
        } else if s.last() == 125 {
            e - 1
        } else {
            e
        }
    }
}

/// Within `s` there is always an open brace left.
pub open spec fn keeps_open(s: Seq<u8>, d: int) -> bool {
    forall|n: int| 0 <= n <= s.len() ==> #[trigger] depth_after(s.take(n), d) >= 1
}

/// Every brace that `s` opens it closes, and no other.
pub open spec fn is_level(s: Seq<u8>) -> bool {
    keeps_open(s, 1) && depth_after(s, 1) == 1
}

pub proof fn lemma_depth_concat(a: Seq<u8>, b: Seq<u8>, d: int)
    ensures
        depth_after(a + b, d) == depth_after(b, depth_after(a, d)),
    decreases b.len(),
{
    if b.len() == 0 {
        assert(a + b =~= a);
    } else {
        lemma_depth_concat(a, b.drop_last(), d);
        assert((a + b).drop_last() =~= a + b.drop_last());
    }
}

pub proof fn lemma_open_parts(a: Seq<u8>, b: Seq<u8>, d: int)
    ensures
        keeps_open(a + b, d) <==> keeps_open(a, d) && keeps_open(b, depth_after(a, d)),
{
    if keeps_open(a + b, d) {
        assert forall|n: int| 0 <= n <= a.len() implies #[trigger] depth_after(a.take(n), d)
            >= 1 by {
            assert((a + b).take(n) =~= a.take(n));
            assert(depth_after((a + b).take(n), d) >= 1);
        }
        assert forall|n: int| 0 <= n <= b.len() implies #[trigger] depth_after(
            b.take(n),
            depth_after(a, d),
        ) >= 1 by {
            assert((a + b).take(a.len() + n) =~= a + b.take(n));
            lemma_depth_concat(a, b.take(n), d);
            assert(depth_after((a + b).take(a.len() + n), d) >= 1);
        }
    }
    if keeps_open(a, d) && keeps_open(b, depth_after(a, d)) {
        assert forall|n: int| 0 <= n <= (a + b).len() implies #[trigger] depth_after(
            (a + b).take(n),
            d,
        ) >= 1 by {
            if n <= a.len() {
                assert((a + b).take(n) =~= a.take(n));
            } else {
                let k = n - a.len();
                assert((a + b).take(n) =~= a + b.take(k));
                lemma_depth_concat(a, b.take(k), d);
                assert(depth_after(b.take(k), depth_after(a, d)) >= 1);
            }
        }
    }
}

pub proof fn lemma_level_concat(a: Seq<u8>, b: Seq<u8>)
    requires
        is_level(a),
        is_level(b),
    ensures
        is_level(a + b),
{
    lemma_depth_concat(a, b, 1);
    lemma_open_parts(a, b, 1);
}

/// No braces.
pub open spec fn is_braceless(s: Seq<u8>) -> bool {
    forall|i: int| 0 <= i < s.len() ==> #[trigger] s[i] != 123 && s[i] != 125
}

proof fn lemma_braceless_depth(s: Seq<u8>, d: int)
    requires
        is_braceless(s),
    ensures
        depth_after(s, d) == d,
    decreases s.len(),
{
    if s.len() > 0 {
        let front = s.drop_last();
        assert forall|i: int| 0 <= i < front.len() implies #[trigger] front[i] != 123 && front[i]
            != 125 by {
            assert(front[i] == s[i]);
        }
        lemma_braceless_depth(front, d);
        assert(s.last() == s[s.len() - 1]);
    }
}

pub proof fn lemma_braceless_is_level(s: Seq<u8>)
    requires
        is_braceless(s),
    ensures
        is_level(s),
{
    lemma_braceless_depth(s, 1);
    assert forall|n: int| 0 <= n <= s.len() implies #[trigger] depth_after(s.take(n), 1) >= 1 by {
        let t = s.take(n);
        assert forall|i: int| 0 <= i < t.len() implies #[trigger] t[i] != 123 && t[i] != 125 by {
            assert(t[i] == s[i]);
        }
        lemma_braceless_depth(t, 1);
    }
}

/// What follows the strings, one after another.
pub open spec fn tails(items: Seq<Item>) -> Seq<u8>
    decreases items.len(),
{
    if items.len() == 0 {
        Seq::empty()
    } else {
        items[0].tail + tails(items.drop_first())
    }
}

pub proof fn lemma_tails_concat(a: Seq<Item>, b: Seq<Item>)
    ensures
        tails(a + b) == tails(a) + tails(b),
    decreases a.len(),
{
    if a.len() == 0 {
        assert(a + b =~= b);
        assert(tails(a) + tails(b) =~= tails(b));
    } else {
        lemma_tails_concat(a.drop_first(), b);
        assert((a + b).drop_first() =~= a.drop_first() + b);
        assert((a + b)[0] == a[0]);
        assert(a[0].tail + (tails(a.drop_first()) + tails(b)) =~= (a[0].tail + tails(
            a.drop_first(),
        )) + tails(b));
    }
}

pub proof fn lemma_tails_single(item: Item)
    ensures
        tails(seq![item]) == item.tail,
{
    assert(seq![item].drop_first() =~= Seq::empty());
    assert(tails(seq![item].drop_first()) =~= Seq::empty());
    assert(item.tail + Seq::<u8>::empty() =~= item.tail);
}

/// A reader with `d` open braces, outside of strings.
spec fn outside(d: int) -> Nesting {
    Nesting { depth: d, in_str: false, esc: false }
}

/// From `i` up to `e` there is always an open brace, and at `e` there are `d`, outside of strings.
spec fn stays_open(buf: Seq<u8>, start: int, i: int, e: int, d: int) -> bool {
    &&& nesting(buf, start, e) == outside(d)
    &&& forall|j: int| i <= j <= e ==> (#[trigger] nesting(buf, start, j)).depth >= 1
}

proof fn lemma_plain_depth(buf: Seq<u8>, start: int, i: int, s: Seq<u8>, n: int, d: int)
    requires
        start < i,
        nesting(buf, start, i) == outside(d),
        is_quoteless(s),
        stands(buf, i, s),
        keeps_open(s, d),
        0 <= n <= s.len(),
    ensures
        stays_open(buf, start, i, i + n, depth_after(s.take(n), d)),
    decreases n,
{
    if n == 0 {
        assert(s.take(0) =~= Seq::empty());
        assert(depth_after(s.take(0), d) >= 1);
    } else {
        lemma_plain_depth(buf, start, i, s, n - 1, d);
        assert(s[n - 1] == buf[i + (n - 1)]);
        assert(nesting(buf, start, i + n) == nest(nesting(buf, start, i + n - 1), buf[i + n - 1]));
        assert(s.take(n).drop_last() =~= s.take(n - 1));
        assert(s.take(n).last() == s[n - 1]);
        assert(depth_after(s.take(n), d) >= 1);
    }
}

/// What may stand between quotes: no quote of its own but behind a backslash.
pub open spec fn is_string(t: Seq<u8>) -> bool
    decreases t.len(),
{
    if t.len() == 0 {
        true
    } else if t[0] == 92 {
        t.len() >= 2 && is_string(t.skip(2))
    } else {
        t[0] != 34 && is_string(t.skip(1))
    }
}

pub proof fn lemma_unescaped_is_string(t: Seq<u8>)
    requires
        is_unescaped(t),
    ensures
        is_string(t),
    decreases t.len(),
{
    if t.len() > 0 {
        let rest = t.skip(1);
        assert(t[0] != 34 && t[0] != 92);
        assert forall|i: int| 0 <= i < rest.len() implies #[trigger] rest[i] != 34 && rest[i]
            != 92 by {
            assert(rest[i] == t[i + 1]);
        }
        lemma_unescaped_is_string(rest);
    }
}

/// Within a string the depth does not change.
proof fn lemma_string_depth(buf: Seq<u8>, start: int, i: int, t: Seq<u8>, d: int)
    requires
        start < i,
        nesting(buf, start, i) == (Nesting { depth: d, in_str: true, esc: false }),
        is_string(t),
        stands(buf, i, t),
    ensures
        nesting(buf, start, (i + t.len()) as int) == (Nesting {
            depth: d,
            in_str: true,
            esc: false,
        }),
        forall|j: int|
            i <= j <= i + t.len() ==> (#[trigger] nesting(buf, start, j)).depth == d,
    decreases t.len(),
{
    if t.len() > 0 {
        assert(t[0] == buf[i + 0]);
        assert(nesting(buf, start, i + 1) == nest(nesting(buf, start, i), buf[i]));
        if t[0] == 92 {
            let rest = t.skip(2);
            assert(nesting(buf, start, i + 2) == nest(nesting(buf, start, i + 1), buf[i + 1]));
            assert forall|j: int| 0 <= j < rest.len() implies #[trigger] rest[j] == buf[i + 2
                + j] by {
                assert(t[j + 2] == buf[i + (j + 2)]);
            }
            lemma_string_depth(buf, start, i + 2, rest, d);
        } else {
            let rest = t.skip(1);
            assert forall|j: int| 0 <= j < rest.len() implies #[trigger] rest[j] == buf[i + 1
                + j] by {
                assert(t[j + 1] == buf[i + (j + 1)]);
            }
            lemma_string_depth(buf, start, i + 1, rest, d);
        }
    }
}

/// Within a quoted string the depth does not change.
proof fn lemma_quoted_depth(buf: Seq<u8>, start: int, i: int, text: Seq<u8>, d: int)
    requires
        start < i,
        d >= 1,
        nesting(buf, start, i) == outside(d),
        is_string(text),
        stands(buf, i, quoted(text)),
    ensures
        stays_open(buf, start, i, (i + quoted(text).len()) as int, d),
{
    let q = quoted(text);
    let n = text.len() as int;
    assert(q[0] == buf[i + 0]);
    assert(q =~= seq![34u8] + (text + seq![34u8]));
    lemma_stands_parts(buf, i, seq![34u8], text + seq![34u8]);
    lemma_stands_parts(buf, i + 1, text, seq![34u8]);
    assert(nesting(buf, start, i + 1) == nest(nesting(buf, start, i), buf[i]));
    lemma_string_depth(buf, start, i + 1, text, d);
    assert(q[n + 1] == buf[i + (n + 1)]);
    assert(nesting(buf, start, i + 2 + n) == nest(nesting(buf, start, i + 1 + n), buf[i + 1 + n]));
}

/// Over items the depth changes as what follows the strings says.
proof fn lemma_items_depth(buf: Seq<u8>, start: int, i: int, items: Seq<Item>, d: int)
    requires
        start < i,
        d >= 1,
        nesting(buf, start, i) == outside(d),
        stands(buf, i, spell(items)),
        forall|k: int| 0 <= k < items.len() ==> is_string((#[trigger] items[k]).text),
        forall|k: int| 0 <= k < items.len() ==> is_quoteless((#[trigger] items[k]).tail),
        keeps_open(tails(items), d),
    ensures
        stays_open(buf, start, i, (i + spell(items).len()) as int, depth_after(tails(items), d)),
    decreases items.len(),
{
    if items.len() > 0 {
        let q = quoted(items[0].text);
        let tail = items[0].tail;
        let others = items.drop_first();
        let one = spell_one(items[0]);
        lemma_open_parts(tail, tails(others), d);
        lemma_depth_concat(tail, tails(others), d);
        lemma_stands_parts(buf, i, one, spell(others));
        lemma_stands_parts(buf, i, q, tail);
        lemma_quoted_depth(buf, start, i, items[0].text, d);
        let m = (i + q.len()) as int;
        let e = depth_after(tail, d);
        assert(tail.take(tail.len() as int) =~= tail);
        lemma_plain_depth(buf, start, m, tail, tail.len() as int, d);
        assert(depth_after(tail.take(tail.len() as int), d) >= 1);
        assert forall|k: int| 0 <= k < others.len() implies is_string(
            (#[trigger] others[k]).text,
        ) && is_quoteless(others[k].tail) by {
            assert(others[k] == items[k + 1]);
        }
        lemma_items_depth(buf, start, m + tail.len(), others, e);
    }
}

/// The items make up the inside of an object: the brace behind the last one closes it, and every
/// other brace is closed by another one before.
pub open spec fn is_object_text(items: Seq<Item>) -> bool {
    &&& items.len() > 0
    &&& forall|i: int| 0 <= i < items.len() ==> is_string((#[trigger] items[i]).text)
    &&& forall|i: int| 0 <= i < items.len() ==> is_quoteless((#[trigger] items[i]).tail)
    &&& items.last().tail.len() > 0
    &&& items.last().tail.last() == 125
    &&& is_level(tails(items.drop_last()) + items.last().tail.drop_last())
}

/// The last item of an object closes it.
#[verifier::spinoff_prover]
proof fn lemma_last_closes(buf: Seq<u8>, start: int, i: int, last: Item, d: int)
    requires
        start < i,
        d >= 1,
        nesting(buf, start, i) == outside(d),
        is_string(last.text),
        is_quoteless(last.tail),
        last.tail.len() > 0,
        last.tail.last() == 125,
        keeps_open(last.tail.drop_last(), d),
        depth_after(last.tail.drop_last(), d) == 1,
        stands(buf, i, spell_one(last)),
    ensures
        ({
            let e = (i + spell_one(last).len()) as int;
            &&& nesting(buf, start, e).depth == 0
            &&& forall|j: int| i <= j < e ==> (#[trigger] nesting(buf, start, j)).depth >= 1
        }),
{
    let q = quoted(last.text);
    let flat = last.tail.drop_last();
    lemma_stands_parts(buf, i, q, last.tail);
    lemma_quoted_depth(buf, start, i, last.text, d);
    let m = (i + q.len()) as int;
    assert(last.tail =~= flat + seq![125u8]);
    lemma_stands_parts(buf, m, flat, seq![125u8]);
    assert forall|k: int| 0 <= k < flat.len() implies #[trigger] flat[k] != 34 by {
        assert(flat[k] == last.tail[k]);
    }
    assert(flat.take(flat.len() as int) =~= flat);
    lemma_plain_depth(buf, start, m, flat, flat.len() as int, d);
    let c = (m + flat.len()) as int;
    assert(seq![125u8][0] == buf[c + 0]);
    assert(nesting(buf, start, c + 1) == nest(nesting(buf, start, c), buf[c]));
    assert(c + 1 == i + spell_one(last).len());
}

/// The inside of an object closes it, and not before its end.
#[verifier::spinoff_prover]
proof fn lemma_inside_closes(buf: Seq<u8>, start: int, first: int, items: Seq<Item>)
    requires
        start < first,
        nesting(buf, start, first) == outside(1),
        is_object_text(items),
        stands(buf, first, spell(items)),
    ensures
        ({
            let e = (first + spell(items).len()) as int;
            &&& nesting(buf, start, e).depth == 0
            &&& forall|j: int| first <= j < e ==> (#[trigger] nesting(buf, start, j)).depth >= 1
        }),
{
    let front = items.drop_last();
    let last = items.last();
    let n = (items.len() - 1) as int;
    let flat = last.tail.drop_last();
    lemma_spell_at(items, n);
    assert(items.take(n) =~= front);
    assert(items.skip(n + 1) =~= Seq::empty());
    assert(spell(items) =~= spell(front) + spell_one(last));
    lemma_stands_parts(buf, first, spell(front), spell_one(last));
    lemma_open_parts(tails(front), flat, 1);
    lemma_depth_concat(tails(front), flat, 1);
    let d = depth_after(tails(front), 1);
    assert forall|k: int| 0 <= k < front.len() implies is_string((#[trigger] front[k]).text)
        && is_quoteless(front[k].tail) by {
        assert(front[k] == items[k]);
    }
    lemma_items_depth(buf, start, first, front, 1);
    let i = (first + spell(front).len()) as int;
    assert(last == items[n]);
    assert(flat.take(0) =~= Seq::empty());
    assert(depth_after(flat.take(0), d) >= 1);
    lemma_last_closes(buf, start, i, last, d);
}

/// An object and the blanks at its beginning.
#[verifier::spinoff_prover]
proof fn lemma_object_opens(buf: Seq<u8>, start: int, lead: Seq<u8>)
    requires
        0 <= start,
        is_blank(lead),
        stands(buf, start, seq![123u8] + lead),
    ensures
        nesting(buf, start, (start + 1 + lead.len()) as int) == outside(1),
        forall|j: int|
            start < j <= start + 1 + lead.len() ==> (#[trigger] nesting(buf, start, j)).depth >= 1,
{
    lemma_stands_parts(buf, start, seq![123u8], lead);
    assert(seq![123u8][0] == buf[start + 0]);
    assert(nesting(buf, start, start) == outside(0));
    assert(nesting(buf, start, start + 1) == nest(nesting(buf, start, start), buf[start]));
    assert(nesting(buf, start, start + 1) == outside(1));
    lemma_braceless_is_level(lead);
    assert(lead.take(lead.len() as int) =~= lead);
    lemma_plain_depth(buf, start, start + 1, lead, lead.len() as int, 1);
}

/// Where the name and the bytes of an object stand.
#[verifier::spinoff_prover]
proof fn lemma_object_places(
    buf: Seq<u8>,
    before: Seq<u8>,
    key: Seq<u8>,
    a: Seq<u8>,
    open: Seq<u8>,
    inner: Seq<u8>,
    after: Seq<u8>,
)
    requires
        buf == before + (key + (a + (open + (inner + after)))),
    ensures
        ({
            let at = (before.len() + key.len()) as int;
            let start = (at + a.len()) as int;
            &&& stands(buf, at, a)
            &&& stands(buf, start, open)
            &&& stands(buf, (start + open.len()) as int, inner)
        }),
{
    let at = (before.len() + key.len()) as int;
    let start = (at + a.len()) as int;
    lemma_stands_in(before, key + (a + (open + (inner + after))));
    lemma_stands_parts(buf, before.len() as int, key, a + (open + (inner + after)));
    lemma_stands_parts(buf, at, a, open + (inner + after));
    lemma_stands_parts(buf, start, open, inner + after);
    lemma_stands_parts(buf, (start + open.len()) as int, inner, after);
}

/// What stands one behind the other stands together.
#[verifier::spinoff_prover]
proof fn lemma_stands_together(buf: Seq<u8>, i: int, a: Seq<u8>, b: Seq<u8>)
    requires
        stands(buf, i, a),
        stands(buf, (i + a.len()) as int, b),
    ensures
        buf.subrange(i, (i + a.len() + b.len()) as int) == a + b,
{
    let all = a + b;
    let found = buf.subrange(i, (i + a.len() + b.len()) as int);
    assert forall|j: int| 0 <= j < all.len() implies found[j] == all[j] by {
        if j < a.len() {
            assert(a[j] == buf[i + j]);
        } else {
            assert(b[j - a.len()] == buf[i + a.len() + (j - a.len())]);
        }
    }
    assert(found =~= all);
}

/// An object reads back.
#[verifier::spinoff_prover]
pub proof fn lemma_object(
    buf: Seq<u8>,
    before: Seq<u8>,
    key: Seq<u8>,
    a: Seq<u8>,
    lead: Seq<u8>,
    items: Seq<Item>,
    after: Seq<u8>,
)
    requires
        is_object_text(items),
        is_colons(a),
        is_blank(lead),
        first_occurrence(buf, key) == Some(before.len() as int),
        buf == before + (key + (a + ((seq![123u8] + lead) + (spell(items) + after)))),
    ensures
        object(buf, key) == Some(seq![123u8] + lead + spell(items)),
{
    let at = (before.len() + key.len()) as int;
    let start = (at + a.len()) as int;
    let open = seq![123u8] + lead;
    let inner = spell(items);
    let first = (start + open.len()) as int;
    lemma_object_places(buf, before, key, a, open, inner, after);
    assert(buf[start] == 123) by {
        assert(open[0] == buf[start + 0]);
    }
    assert forall|j: int| at <= j < start implies ByteSet::BlankOrColon.holds(
        #[trigger] buf[j],
    ) by {
        assert(a[j - at] == buf[at + (j - at)]);
    }
    lemma_run(buf, at, start, ByteSet::BlankOrColon);
    lemma_object_opens(buf, start, lead);
    lemma_inside_closes(buf, start, first, items);
    let e = (first + inner.len()) as int;
    assert(closes_at(buf, start, e));
    lemma_object_end(buf, start, e);
    lemma_stands_together(buf, start, open, inner);
}

/// An object behind the first place of its name ends with the brace that closes it: braces within
/// strings do not count, and neither does a quote behind a backslash end a string.
pub proof fn law_objects_end_with_their_brace(
    before: Seq<u8>,
    key: Seq<u8>,
    a: Seq<u8>,
    lead: Seq<u8>,
    items: Seq<Item>,
    after: Seq<u8>,
)
    requires
        is_object_text(items),
        is_colons(a),
        is_blank(lead),
        forall|r: int|
            0 <= r < before.len() ==> !#[trigger] found_at(
                before + (key + (a + ((seq![123u8] + lead) + (spell(items) + after)))),
                key,
                r,
            ),
    ensures
        object(before + (key + (a + ((seq![123u8] + lead) + (spell(items) + after)))), key) == Some(
            seq![123u8] + lead + spell(items),
        ),
{
    let buf = before + (key + (a + ((seq![123u8] + lead) + (spell(items) + after))));
    let p = before.len() as int;
    assert forall|j: int| 0 <= j < key.len() implies #[trigger] key[j] == buf[p + j] by {}
    law_first_occurrences(buf, key, p);
    lemma_object(buf, before, key, a, lead, items, after);
}

} // verus!
