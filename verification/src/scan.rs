//! Looking through bytes: searching, skipping and comparing.

use vstd::prelude::*;
use vstd::string::StringSliceAdditionalSpecFns;

verus! {

/// `needle` stands in `hay` at `p`.
pub open spec fn occurs_at(hay: Seq<u8>, needle: Seq<u8>, p: int) -> bool {
    &&& 0 <= p
    &&& p + needle.len() <= hay.len()
    &&& hay.subrange(p, p + needle.len()) == needle
}

/// `needle` stands in `hay` at `p`, and nowhere before.
pub open spec fn occurs_first_at(hay: Seq<u8>, needle: Seq<u8>, p: int) -> bool {
    &&& occurs_at(hay, needle, p)
    &&& forall|r: int| 0 <= r < p ==> !#[trigger] occurs_at(hay, needle, r)
}

/// Where `needle` stands first in `hay`, if it does.
pub open spec fn first_occurrence(hay: Seq<u8>, needle: Seq<u8>) -> Option<int> {
    if exists|p: int| occurs_first_at(hay, needle, p) {
        Some(choose|p: int| occurs_first_at(hay, needle, p))
    } else {
        None
    }
}

/// The first place is the only first place.
pub proof fn lemma_first_occurrence(hay: Seq<u8>, needle: Seq<u8>, p: int)
    requires
        occurs_first_at(hay, needle, p),
    ensures
        first_occurrence(hay, needle) == Some(p),
{
    let r = choose|r: int| occurs_first_at(hay, needle, r);
    assert(occurs_first_at(hay, needle, r));
    if r < p {
        assert(!occurs_at(hay, needle, r));
    } else if p < r {
        assert(!occurs_at(hay, needle, p));
    }
}

/// `memchr::memmem::find` gives the first place at which the needle stands in the haystack, and
/// `None` when it stands nowhere. An empty needle stands at the very beginning.
pub assume_specification[ memchr::memmem::find ](haystack: &[u8], needle: &[u8]) -> (r: Option<
    usize,
>)
    ensures
        match r {
            Some(p) => occurs_first_at(haystack@, needle@, p as int),
            None => forall|p: int| !#[trigger] occurs_at(haystack@, needle@, p),
        },
;

/// Finds the first place at which `needle` stands in `haystack`.
pub fn find_subseq(haystack: &[u8], needle: &[u8]) -> (r: Option<usize>)
    ensures
        match r {
            Some(p) => first_occurrence(haystack@, needle@) == Some(p as int) && p + needle@.len()
                <= haystack@.len() <= usize::MAX,
            None => first_occurrence(haystack@, needle@) is None,
        },
{
    let r = memchr::memmem::find(haystack, needle);
    assert(haystack.len() == haystack@.len());
    proof {
        match r {
            Some(p) => lemma_first_occurrence(haystack@, needle@, p as int),
            None => {
                if exists|p: int| occurs_first_at(haystack@, needle@, p) {
                    let p = choose|p: int| occurs_first_at(haystack@, needle@, p);
                    assert(occurs_at(haystack@, needle@, p));
                }
            },
        }
    }
    r
}

/// Sets of bytes.
#[derive(Clone, Copy)]
pub enum ByteSet {
    /// Space, tab, carriage return and line feed.
    Blank,
    /// The blanks and the colon.
    BlankOrColon,
    /// Space, tab and colon.
    GapOrColon,
    /// Space and tab.
    Gap,
    /// Everything but the colon.
    NotColon,
    /// Everything but the double quote.
    NotQuote,
    /// Decimal digits.
    Digit,
    /// What a decimal number is made of: digits, point, signs and exponent mark.
    Number,
}

impl ByteSet {
    /// `c` belongs to the set.
    pub open spec fn holds(&self, c: u8) -> bool {
        match *self {
            ByteSet::Blank => c == 32 || c == 9 || c == 13 || c == 10,
            ByteSet::BlankOrColon => c == 32 || c == 9 || c == 58 || c == 13 || c == 10,
            ByteSet::GapOrColon => c == 32 || c == 9 || c == 58,
            ByteSet::Gap => c == 32 || c == 9,
            ByteSet::NotColon => c != 58,
            ByteSet::NotQuote => c != 34,
            ByteSet::Digit => 48 <= c <= 57,
            ByteSet::Number => 48 <= c <= 57 || c == 46 || c == 45 || c == 43 || c == 101 || c
                == 69,
        }
    }

    /// Tests membership.
    pub fn contains(&self, c: u8) -> (b: bool)
        ensures
            b == self.holds(c),
    {
        match *self {
            ByteSet::Blank => c == 32 || c == 9 || c == 13 || c == 10,
            ByteSet::BlankOrColon => c == 32 || c == 9 || c == 58 || c == 13 || c == 10,
            ByteSet::GapOrColon => c == 32 || c == 9 || c == 58,
            ByteSet::Gap => c == 32 || c == 9,
            ByteSet::NotColon => c != 58,
            ByteSet::NotQuote => c != 34,
            ByteSet::Digit => 48 <= c && c <= 57,
            ByteSet::Number => (48 <= c && c <= 57) || c == 46 || c == 45 || c == 43 || c == 101
                || c == 69,
        }
    }
}

/// Where the run of bytes of `set` that starts at `i` ends.
pub open spec fn run_end(buf: Seq<u8>, i: int, set: ByteSet) -> int
    decreases buf.len() - i,
{
    if 0 <= i < buf.len() && set.holds(buf[i]) {
        run_end(buf, i + 1, set)
    } else {
        i
    }
}

/// A run ends where a byte does not belong to the set, or at the end of the buffer.
pub proof fn lemma_run_end(buf: Seq<u8>, i: int, set: ByteSet)
    requires
        0 <= i <= buf.len(),
    ensures
        i <= run_end(buf, i, set) <= buf.len(),
        forall|j: int| i <= j < run_end(buf, i, set) ==> set.holds(#[trigger] buf[j]),
        run_end(buf, i, set) < buf.len() ==> !set.holds(buf[run_end(buf, i, set)]),
    decreases buf.len() - i,
{
    if i < buf.len() && set.holds(buf[i]) {
        lemma_run_end(buf, i + 1, set);
    }
}

/// Skips the bytes of a set.
pub fn skip_run(buf: &[u8], from: usize, set: ByteSet) -> (end: usize)
    requires
        from <= buf@.len(),
    ensures
        end == run_end(buf@, from as int, set),
        from <= end <= buf@.len(),
{
    let mut i: usize = from;
    while i < buf.len() && set.contains(buf[i])
        invariant
            from <= i <= buf@.len(),
            run_end(buf@, from as int, set) == run_end(buf@, i as int, set),
        decreases buf@.len() - i,
    {
        i += 1;
    }
    i
}

/// Compares bytes.
pub fn same_bytes(a: &[u8], b: &[u8]) -> (same: bool)
    ensures
        same == (a@ == b@),
{
    if a.len() != b.len() {
        return false;
    }
    let mut i: usize = 0;
    while i < a.len()
        invariant
            i <= a@.len(),
            a@.len() == b@.len(),
            forall|j: int| 0 <= j < i ==> a@[j] == b@[j],
        decreases a@.len() - i,
    {
        if a[i] != b[i] {
            return false;
        }
        i += 1;
    }
    assert(a@ =~= b@);
    true
}

/// Compares texts.
pub fn same_text(a: &str, b: &str) -> (same: bool)
    ensures
        same == (a@ == b@),
{
    proof {
        vstd::utf8::encode_utf8_decode_utf8(a@);
        vstd::utf8::encode_utf8_decode_utf8(b@);
    }
    same_bytes(a.as_bytes(), b.as_bytes())
}

/// `buf` begins with `prefix`.
pub open spec fn has_prefix(buf: Seq<u8>, prefix: Seq<u8>) -> bool {
    occurs_at(buf, prefix, 0)
}

/// Tests how a buffer begins.
pub fn starts_with(buf: &[u8], prefix: &[u8]) -> (b: bool)
    ensures
        b == has_prefix(buf@, prefix@),
{
    buf.len() >= prefix.len() && same_bytes(&buf[0..prefix.len()], prefix)
}

/// The bytes of `needle` stand in `hay` from `p` on.
pub open spec fn found_at(hay: Seq<u8>, needle: Seq<u8>, p: int) -> bool {
    &&& 0 <= p
    &&& p + needle.len() <= hay.len()
    &&& forall|j: int| 0 <= j < needle.len() ==> #[trigger] needle[j] == hay[p + j]
}

proof fn lemma_found_at(hay: Seq<u8>, needle: Seq<u8>, p: int)
    ensures
        found_at(hay, needle, p) == occurs_at(hay, needle, p),
{
    if found_at(hay, needle, p) {
        assert(hay.subrange(p, p + needle.len()) =~= needle);
    }
    if occurs_at(hay, needle, p) {
        assert forall|j: int| 0 <= j < needle.len() implies #[trigger] needle[j] == hay[p + j] by {
            assert(hay.subrange(p, p + needle.len())[j] == needle[j]);
        }
    }
}

/// Where something stands, there is a first place.
proof fn lemma_some_place_is_first(hay: Seq<u8>, needle: Seq<u8>, p: int)
    requires
        occurs_at(hay, needle, p),
    ensures
        first_occurrence(hay, needle) is Some,
    decreases p,
{
    if exists|r: int| 0 <= r < p && #[trigger] occurs_at(hay, needle, r) {
        let r = choose|r: int| 0 <= r < p && #[trigger] occurs_at(hay, needle, r);
        lemma_some_place_is_first(hay, needle, r);
    } else {
        assert(occurs_first_at(hay, needle, p));
    }
}

/// The first occurrence is where all bytes stand, and do not stand anywhere before; there is none
/// if and only if they stand nowhere.
pub proof fn law_first_occurrences(hay: Seq<u8>, needle: Seq<u8>, p: int)
    ensures
        first_occurrence(hay, needle) == Some(p) <==> found_at(hay, needle, p) && forall|r: int|
            0 <= r < p ==> !#[trigger] found_at(hay, needle, r),
        first_occurrence(hay, needle) is None <==> forall|r: int| !#[trigger] found_at(
            hay,
            needle,
            r,
        ),
{
    assert forall|r: int| #[trigger] found_at(hay, needle, r) == occurs_at(hay, needle, r) by {
        lemma_found_at(hay, needle, r);
    }
    assert forall|r: int| #[trigger] occurs_at(hay, needle, r) == found_at(hay, needle, r) by {
        lemma_found_at(hay, needle, r);
    }
    if found_at(hay, needle, p) && forall|r: int| 0 <= r < p ==> !#[trigger] found_at(
        hay,
        needle,
        r,
    ) {
        assert(occurs_first_at(hay, needle, p));
        lemma_first_occurrence(hay, needle, p);
    }
    if first_occurrence(hay, needle) is Some {
        let q = first_occurrence(hay, needle)->0;
        assert(occurs_first_at(hay, needle, q));
        assert(found_at(hay, needle, q));
    } else {
        assert forall|r: int| !#[trigger] found_at(hay, needle, r) by {
            if found_at(hay, needle, r) {
                lemma_some_place_is_first(hay, needle, r);
            }
        }
    }
}

/// A decimal digit.
pub open spec fn is_digit(c: u8) -> bool {
    48 <= c <= 57
}

/// Blanks separate: no blank, comma, colon, quote, brace or bracket is part of a number, and digits
/// are. Every byte is in or out of the other sets as they are named.
pub proof fn law_byte_sets(c: u8)
    ensures
        is_digit(c) ==> ByteSet::Number.holds(c),
        c == 43 || c == 45 || c == 46 || c == 69 || c == 101 ==> ByteSet::Number.holds(c),
        ByteSet::Number.holds(c) ==> is_digit(c) || c == 43 || c == 45 || c == 46 || c == 69 || c
            == 101,
        ByteSet::Digit.holds(c) <==> is_digit(c),
        ByteSet::Gap.holds(c) <==> c == 9 || c == 32,
        ByteSet::Blank.holds(c) <==> ByteSet::Gap.holds(c) || c == 10 || c == 13,
        ByteSet::BlankOrColon.holds(c) <==> ByteSet::Blank.holds(c) || c == 58,
        ByteSet::GapOrColon.holds(c) <==> ByteSet::Gap.holds(c) || c == 58,
        ByteSet::NotColon.holds(c) <==> c != 58,
        ByteSet::NotQuote.holds(c) <==> c != 34,
{
}

} // verus!
