//! Requests as clients write them, and what they are understood and answered as.

use vstd::prelude::*;
use vstd::string::StringSliceAdditionalSpecFns;
use crate::exchange::transcript;
use crate::scan::{
    has_prefix,
    lemma_first_occurrence,
    occurs_at,
    occurs_first_at,
    run_end,
    ByteSet,
};
use crate::server::{
    after_reply,
    blank_line,
    content_length,
    drain,
    head_end,
    is_countable,
    is_first_length_line,
    is_length_line,
    lemma_content_length,
    lemma_drain_fraud,
    lemma_drain_ready,
    lemma_replies_compose,
    lemma_window_request,
    length_digits,
    lower,
    may_score,
    may_score_all,
    request_of,
    score_answer,
    stays_countable,
    window,
    Drained,
    Request,
    LENGTH_KEY,
    READY_LINE,
    RESP_400,
    RESP_404,
    RESP_READY,
    RX_CAP,
    SCORE_LINE,
};
use crate::timestamp::decimal;

verus! {

/// The decimal digits of a number.
pub open spec fn digits_of(n: nat) -> Seq<u8>
    decreases n,
{
    if n < 10 {
        seq![(48 + n) as u8]
    } else {
        digits_of(n / 10).push((48 + n % 10) as u8)
    }
}

/// The digits of a number are digits, and spell it; zeros in front do not matter.
pub proof fn law_decimals_read_back(n: nat, zeros: nat)
    ensures
        digits_of(n).len() > 0,
        forall|i: int| 0 <= i < digits_of(n).len() ==> 48 <= #[trigger] digits_of(n)[i] <= 57,
        decimal(digits_of(n)) == n,
        decimal(Seq::new(zeros, |i: int| 48u8) + digits_of(n)) == n,
    decreases n, zeros,
{
    let d = digits_of(n);
    let padded = Seq::new(zeros, |i: int| 48u8) + d;
    if n < 10 {
        reveal_with_fuel(decimal, 2);
        assert(d.drop_last() =~= Seq::empty());
        assert(padded.drop_last() =~= Seq::new(zeros, |i: int| 48u8));
        lemma_zeros(zeros);
    } else {
        law_decimals_read_back(n / 10, zeros);
        assert(d.drop_last() =~= digits_of(n / 10));
        assert(padded.drop_last() =~= Seq::new(zeros, |i: int| 48u8) + digits_of(n / 10));
        assert(padded.last() == d.last());
    }
}

proof fn lemma_zeros(zeros: nat)
    ensures
        decimal(Seq::new(zeros, |i: int| 48u8)) == 0,
    decreases zeros,
{
    let s = Seq::new(zeros, |i: int| 48u8);
    if zeros > 0 {
        lemma_zeros((zeros - 1) as nat);
        assert(s.drop_last() =~= Seq::new((zeros - 1) as nat, |i: int| 48u8));
    } else {
        assert(s =~= Seq::empty());
    }
}

/// A carriage return and a line feed, twice, stand in `b` at `r`.
pub open spec fn blank_at(b: Seq<u8>, r: int) -> bool {
    r + 4 <= b.len() && b[r] == 13 && b[r + 1] == 10 && b[r + 2] == 13 && b[r + 3] == 10
}

/// A head and its blank line.
pub open spec fn ended(head: Seq<u8>) -> Seq<u8> {
    head + seq![13u8, 10, 13, 10]
}

/// The blank line behind `head` is the first one in it.
pub open spec fn is_head(head: Seq<u8>) -> bool {
    forall|r: int| 0 <= r < head.len() ==> !#[trigger] blank_at(ended(head), r)
}

/// `b` begins with `s`.
pub open spec fn begins(b: Seq<u8>, s: Seq<u8>) -> bool {
    s.len() <= b.len() && forall|i: int| 0 <= i < s.len() ==> #[trigger] s[i] == b[i]
}

/// `c` is the small letter `k`, or its capital; or `k` itself, where that is no letter.
pub open spec fn same_letter(c: u8, k: u8) -> bool {
    c == k || (97 <= k <= 122 && c == k - 32)
}

/// The name of the length header with its colon stands in `h` at `i`, in any case of letters.
pub open spec fn name_at(h: Seq<u8>, i: int) -> bool {
    let key = "content-length:".spec_bytes();
    i + key.len() <= h.len() && forall|k: int|
        0 <= k < key.len() ==> same_letter(#[trigger] h[i + k], key[k])
}

/// A line begins at `i`.
pub open spec fn line_at(h: Seq<u8>, i: int) -> bool {
    i == 0 || h[i - 1] == 10
}

/// The head of a request for a score, around the length that it announces.
pub struct ScoreHead {
    /// The request line and the headers before, each with its line end.
    pub before: Seq<u8>,
    /// The name of the length header, with its colon.
    pub name: Seq<u8>,
    /// Spaces and tabs.
    pub gap: Seq<u8>,
    /// Zeros in front of the number.
    pub zeros: nat,
    /// What follows the number.
    pub after: Seq<u8>,
}

/// The digits of a length, with zeros in front.
pub open spec fn length_text(h: ScoreHead, n: nat) -> Seq<u8> {
    Seq::new(h.zeros, |i: int| 48u8) + digits_of(n)
}

/// The head that announces `n` bytes.
pub open spec fn head_bytes(h: ScoreHead, n: nat) -> Seq<u8> {
    h.before + h.name + h.gap + length_text(h, n) + h.after
}

/// A head as a client may write it: it asks for a score, the length stands in a line of its own, no
/// line before has that name, and no digit follows.
pub open spec fn is_score_head(h: ScoreHead, n: nat) -> bool {
    let head = head_bytes(h, n);
    &&& begins(h.before, "POST /fraud-score".spec_bytes())
    &&& h.before.len() > 0
    &&& h.before.last() == 10
    &&& h.name.len() == "content-length:".spec_bytes().len()
    &&& name_at(h.name, 0)
    &&& forall|i: int| 0 <= i < h.before.len() && line_at(head, i) ==> !#[trigger] name_at(head, i)
    &&& forall|i: int| 0 <= i < h.gap.len() ==> #[trigger] h.gap[i] == 32 || h.gap[i] == 9
    &&& h.after.len() > 0 ==> !(48 <= h.after[0] <= 57)
    &&& is_head(head)
}

/// A whole message: head, blank line and body.
pub open spec fn message(head: Seq<u8>, body: Seq<u8>) -> Seq<u8> {
    ended(head) + body
}

/// The first blank line of a message is the one behind its head.
proof fn lemma_head_end(head: Seq<u8>, body: Seq<u8>)
    requires
        is_head(head),
    ensures
        head_end(message(head, body)) == Some(head.len() as int),
        message(head, body).take(head.len() as int) == head,
{
    let m = message(head, body);
    let p = head.len() as int;
    let short = ended(head);
    assert(m.subrange(p, p + 4) =~= blank_line());
    assert forall|r: int| 0 <= r < p implies !#[trigger] occurs_at(m, blank_line(), r) by {
        if occurs_at(m, blank_line(), r) {
            let s = m.subrange(r, r + 4);
            assert(s[0] == 13 && s[1] == 10 && s[2] == 13 && s[3] == 10);
            assert(m[r] == short[r] && m[r + 1] == short[r + 1]);
            assert(m[r + 2] == short[r + 2] && m[r + 3] == short[r + 3]);
            assert(blank_at(short, r));
        }
    }
    lemma_first_occurrence(m, blank_line(), p);
    assert(m.take(p) =~= head);
}

/// Beginnings in both vocabularies.
proof fn lemma_begins(b: Seq<u8>, s: Seq<u8>)
    ensures
        begins(b, s) == has_prefix(b, s),
{
    if begins(b, s) {
        assert(b.subrange(0, s.len() as int) =~= s);
    }
    if has_prefix(b, s) {
        assert forall|i: int| 0 <= i < s.len() implies #[trigger] s[i] == b[i] by {
            assert(b.subrange(0, s.len() as int)[i] == s[i]);
        }
    }
}

/// The bytes of a literal of small letters, blanks and signs.
proof fn lemma_length_name()
    ensures
        LENGTH_KEY.spec_bytes() == "content-length:".spec_bytes(),
        LENGTH_KEY.spec_bytes().len() == 15,
        forall|k: int|
            0 <= k < 15 ==> {
                let c = #[trigger] LENGTH_KEY.spec_bytes()[k];
                97 <= c <= 122 || c == 45 || c == 58
            },
{
    reveal_strlit("content-length:");
    assert(LENGTH_KEY@ == "content-length:"@);
    vstd::utf8::is_ascii_chars_encode_utf8(LENGTH_KEY@);
    assert forall|k: int| 0 <= k < 15 implies {
        let c = #[trigger] LENGTH_KEY.spec_bytes()[k];
        97 <= c <= 122 || c == 45 || c == 58
    } by {
        assert(LENGTH_KEY@[k] as u8 == LENGTH_KEY.spec_bytes()[k]);
    }
}

/// A length line is a line with the name of the length header.
proof fn lemma_length_line(h: Seq<u8>, i: int)
    requires
        0 <= i,
    ensures
        is_length_line(h, i) == (line_at(h, i) && name_at(h, i)),
{
    let key = LENGTH_KEY.spec_bytes();
    lemma_length_name();
    assert forall|k: int, c: u8| 0 <= k < 15 implies (#[trigger] lower(c) == lower(
        #[trigger] key[k],
    )) == same_letter(c, key[k]) by {}
    if is_length_line(h, i) {
        assert forall|k: int| 0 <= k < key.len() implies same_letter(
            #[trigger] h[i + k],
            key[k],
        ) by {
            assert(lower(h[i + k]) == lower(key[k]));
        }
    }
    if line_at(h, i) && name_at(h, i) {
        assert forall|k: int| 0 <= k < key.len() implies lower(#[trigger] h[i + k]) == lower(
            key[k],
        ) by {
            assert(same_letter(h[i + k], key[k]));
        }
    }
}

/// Where a run ends that another byte or the end of the buffer follows.
proof fn lemma_run_to(buf: Seq<u8>, i: int, e: int, set: ByteSet)
    requires
        0 <= i <= e <= buf.len(),
        forall|j: int| i <= j < e ==> set.holds(#[trigger] buf[j]),
        e < buf.len() ==> !set.holds(buf[e]),
    ensures
        run_end(buf, i, set) == e,
    decreases e - i,
{
    if i < e {
        lemma_run_to(buf, i + 1, e, set);
    }
}

/// A head announces the length that is written in it.
#[verifier::spinoff_prover]
proof fn lemma_length_reads_back(h: ScoreHead, n: nat)
    requires
        is_score_head(h, n),
    ensures
        content_length(head_bytes(h, n)) == Some(n as int),
{
    let head = head_bytes(h, n);
    let key = LENGTH_KEY.spec_bytes();
    let i = h.before.len() as int;
    let text = length_text(h, n);
    lemma_length_name();
    law_decimals_read_back(n, h.zeros);
    let j = i + 15 + h.gap.len();
    let e = j + text.len();
    assert(head.len() == e + h.after.len());
    assert forall|k: int| 0 <= k < key.len() implies same_letter(
        #[trigger] head[i + k],
        key[k],
    ) by {
        assert(head[i + k] == h.name[k]);
        assert(same_letter(h.name[0 + k], key[k]));
    }
    assert(head[i - 1] == h.before.last());
    lemma_length_line(head, i);
    assert forall|r: int| 0 <= r < i implies !#[trigger] is_length_line(head, r) by {
        lemma_length_line(head, r);
        if line_at(head, r) {
            assert(!name_at(head, r));
        }
    }
    assert(is_first_length_line(head, i));
    lemma_content_length(head, i);
    assert forall|k: int| i + 15 <= k < j implies ByteSet::Gap.holds(#[trigger] head[k]) by {
        assert(head[k] == h.gap[k - i - 15]);
    }
    assert forall|k: int| j <= k < e implies ByteSet::Digit.holds(#[trigger] head[k]) by {
        assert(head[k] == text[k - j]);
        if k - j >= h.zeros {
            assert(text[k - j] == digits_of(n)[k - j - h.zeros]);
        }
    }
    assert(ByteSet::Digit.holds(head[j]));
    lemma_run_to(head, i + 15, j, ByteSet::Gap);
    if e < head.len() {
        assert(head[e] == h.after[0]);
    }
    lemma_run_to(head, j, e, ByteSet::Digit);
    assert(length_digits(head, i) =~= text);
}

/// How requests that are told apart begin.
proof fn lemma_first_lines()
    ensures
        READY_LINE.spec_bytes() == "GET /ready".spec_bytes(),
        SCORE_LINE.spec_bytes() == "POST /fraud-score".spec_bytes(),
        "GET /ready".spec_bytes().len() == 10,
        "GET /ready".spec_bytes()[0] == 71,
        "POST /fraud-score".spec_bytes().len() == 17,
        "POST /fraud-score".spec_bytes()[0] == 80,
{
    reveal_strlit("GET /ready");
    reveal_strlit("POST /fraud-score");
    assert(READY_LINE@ == "GET /ready"@);
    assert(SCORE_LINE@ == "POST /fraud-score"@);
    vstd::utf8::is_ascii_chars_encode_utf8(READY_LINE@);
    vstd::utf8::is_ascii_chars_encode_utf8(SCORE_LINE@);
    assert(READY_LINE@[0] as u8 == READY_LINE.spec_bytes()[0]);
    assert(SCORE_LINE@[0] as u8 == SCORE_LINE.spec_bytes()[0]);
}

/// A message that begins as a request for a score is no readiness probe.
proof fn lemma_score_begins(m: Seq<u8>)
    requires
        begins(m, "POST /fraud-score".spec_bytes()),
    ensures
        has_prefix(m, SCORE_LINE.spec_bytes()),
        !has_prefix(m, READY_LINE.spec_bytes()),
{
    lemma_first_lines();
    lemma_begins(m, SCORE_LINE.spec_bytes());
    lemma_begins(m, READY_LINE.spec_bytes());
    if begins(m, "GET /ready".spec_bytes()) {
        assert("GET /ready".spec_bytes()[0] == m[0]);
        assert("POST /fraud-score".spec_bytes()[0] == m[0]);
    }
}

/// What a request for a score comes to, by the length that its head announces.
proof fn lemma_score_request(m: Seq<u8>, p: int, n: int)
    requires
        head_end(m) == Some(p),
        has_prefix(m, SCORE_LINE.spec_bytes()),
        !has_prefix(m, READY_LINE.spec_bytes()),
        content_length(m.take(p)) == Some(n),
    ensures
        request_of(m) == if m.len() < p + 4 + n {
            Request::NeedBody
        } else {
            Request::Fraud {
                body_start: p + 4,
                body_end: p + 4 + n,
                consumed: p + 4 + n,
            }
        },
{
}

/// A message with the head of a request for a score.
#[verifier::spinoff_prover]
proof fn lemma_score_message(h: ScoreHead, n: nat, after: Seq<u8>)
    requires
        is_score_head(h, n),
    ensures
        ({
            let head = head_bytes(h, n);
            let p = head.len() as int;
            request_of(message(head, after)) == if after.len() < n {
                Request::NeedBody
            } else {
                Request::Fraud { body_start: p + 4, body_end: p + 4 + n, consumed: p + 4 + n }
            }
        }),
{
    let head = head_bytes(h, n);
    let m = message(head, after);
    let p = head.len() as int;
    let line = "POST /fraud-score".spec_bytes();
    lemma_head_end(head, after);
    assert forall|i: int| 0 <= i < line.len() implies #[trigger] line[i] == m[i] by {
        assert(line[i] == h.before[i]);
        assert(m[i] == head[i]);
        assert(head[i] == h.before[i]);
    }
    assert(m.len() == p + 4 + after.len());
    lemma_score_begins(m);
    lemma_length_reads_back(h, n);
    lemma_score_request(m, p, n as int);
}

/// A written request for a score reads back: its body is all the bytes that its head announces,
/// whatever follows.
pub proof fn law_score_requests_read_back(h: ScoreHead, body: Seq<u8>, rest: Seq<u8>)
    requires
        is_score_head(h, body.len()),
    ensures
        ({
            let head = head_bytes(h, body.len());
            let n = (head.len() + 4) as int;
            let m = message(head, body) + rest;
            &&& request_of(m) == (Request::Fraud {
                body_start: n,
                body_end: n + body.len(),
                consumed: n + body.len(),
            })
            &&& m.subrange(n, n + body.len()) == body
        }),
{
    let head = head_bytes(h, body.len());
    let n = (head.len() + 4) as int;
    let m = message(head, body) + rest;
    assert(m =~= message(head, body + rest));
    lemma_score_message(h, body.len(), body + rest);
    assert(m.subrange(n, n + body.len()) =~= body);
}

/// As long as bytes of its body are missing, a written request for a score waits for them.
pub proof fn law_score_requests_wait_for_their_body(h: ScoreHead, n: nat, part: Seq<u8>)
    requires
        is_score_head(h, n),
        part.len() < n,
    ensures
        request_of(message(head_bytes(h, n), part)) == Request::NeedBody,
{
    lemma_score_message(h, n, part);
}

/// Without a blank line a request is not complete.
pub proof fn law_requests_wait_for_their_head(b: Seq<u8>)
    requires
        forall|r: int| 0 <= r < b.len() ==> !#[trigger] blank_at(b, r),
    ensures
        request_of(b) == Request::Incomplete,
{
    if head_end(b) is Some {
        let p = choose|p: int| occurs_first_at(b, blank_line(), p);
        assert(occurs_at(b, blank_line(), p));
        let s = b.subrange(p, p + 4);
        assert(s[0] == 13 && s[1] == 10 && s[2] == 13 && s[3] == 10);
        assert(blank_at(b, p));
    }
}

/// A head that begins as a readiness probe is one, and takes no more than its head.
pub proof fn law_ready_requests_read_back(head: Seq<u8>, rest: Seq<u8>)
    requires
        is_head(head),
        begins(head, "GET /ready".spec_bytes()),
    ensures
        request_of(message(head, rest)) == (Request::Ready { consumed: (head.len() + 4) as int }),
{
    let m = message(head, rest);
    lemma_head_end(head, rest);
    lemma_first_lines();
    assert forall|i: int| 0 <= i < "GET /ready".spec_bytes().len() implies
        #[trigger] "GET /ready".spec_bytes()[i] == m[i] by {
        assert("GET /ready".spec_bytes()[i] == head[i]);
    }
    lemma_begins(m, READY_LINE.spec_bytes());
}

/// A head that begins otherwise asks for something that is not on offer.
pub proof fn law_other_requests_are_not_found(head: Seq<u8>, rest: Seq<u8>)
    requires
        is_head(head),
        !begins(message(head, rest), "GET /ready".spec_bytes()),
        !begins(message(head, rest), "POST /fraud-score".spec_bytes()),
    ensures
        request_of(message(head, rest)) == (Request::NotFound {
            consumed: (head.len() + 4) as int,
        }),
{
    let m = message(head, rest);
    lemma_head_end(head, rest);
    lemma_first_lines();
    lemma_begins(m, READY_LINE.spec_bytes());
    lemma_begins(m, SCORE_LINE.spec_bytes());
}

/// A request for a score whose head has no length line cannot be understood.
pub proof fn law_requests_without_length_are_bad(head: Seq<u8>, rest: Seq<u8>)
    requires
        is_head(head),
        begins(head, "POST /fraud-score".spec_bytes()),
        forall|i: int| 0 <= i < head.len() && line_at(head, i) ==> !#[trigger] name_at(head, i),
    ensures
        request_of(message(head, rest)) == Request::Bad,
{
    let m = message(head, rest);
    lemma_head_end(head, rest);
    assert forall|i: int| 0 <= i < "POST /fraud-score".spec_bytes().len() implies
        #[trigger] "POST /fraud-score".spec_bytes()[i] == m[i] by {
        assert("POST /fraud-score".spec_bytes()[i] == head[i]);
    }
    lemma_score_begins(m);
    if exists|i: int| is_first_length_line(head, i) {
        let i = choose|i: int| is_first_length_line(head, i);
        lemma_length_name();
        lemma_length_line(head, i);
    }
}

/// A request for a score whose first length line has no digits cannot be understood.
pub proof fn law_requests_without_digits_are_bad(
    before: Seq<u8>,
    name: Seq<u8>,
    gap: Seq<u8>,
    after: Seq<u8>,
    rest: Seq<u8>,
)
    requires
        ({
            let head = before + name + gap + after;
            &&& is_head(head)
            &&& begins(before, "POST /fraud-score".spec_bytes())
            &&& before.last() == 10
            &&& before.len() > 0
            &&& name.len() == "content-length:".spec_bytes().len()
            &&& name_at(name, 0)
            &&& forall|i: int|
                0 <= i < before.len() && line_at(head, i) ==> !#[trigger] name_at(head, i)
            &&& forall|i: int| 0 <= i < gap.len() ==> #[trigger] gap[i] == 32 || gap[i] == 9
            &&& after.len() > 0 ==> !(48 <= after[0] <= 57) && after[0] != 32 && after[0] != 9
        }),
    ensures
        request_of(message(before + name + gap + after, rest)) == Request::Bad,
{
    let head = before + name + gap + after;
    let m = message(head, rest);
    let key = LENGTH_KEY.spec_bytes();
    let i = before.len() as int;
    lemma_head_end(head, rest);
    assert forall|k: int| 0 <= k < "POST /fraud-score".spec_bytes().len() implies
        #[trigger] "POST /fraud-score".spec_bytes()[k] == m[k] by {
        assert("POST /fraud-score".spec_bytes()[k] == before[k]);
    }
    lemma_score_begins(m);
    lemma_length_name();
    assert forall|k: int| 0 <= k < key.len() implies same_letter(
        #[trigger] head[i + k],
        key[k],
    ) by {
        assert(head[i + k] == name[k]);
        assert(same_letter(name[0 + k], key[k]));
    }
    assert(head[i - 1] == before.last());
    lemma_length_line(head, i);
    assert forall|r: int| 0 <= r < i implies !#[trigger] is_length_line(head, r) by {
        lemma_length_line(head, r);
        if line_at(head, r) {
            assert(!name_at(head, r));
        }
    }
    assert(is_first_length_line(head, i));
    lemma_content_length(head, i);
    let j = i + 15 + gap.len();
    assert forall|k: int| i + 15 <= k < j implies ByteSet::Gap.holds(#[trigger] head[k]) by {
        assert(head[k] == gap[k - i - 15]);
    }
    if j < head.len() {
        assert(head[j] == after[0]);
    }
    lemma_run_to(head, i + 15, j, ByteSet::Gap);
    lemma_run_to(head, j, j, ByteSet::Digit);
    assert(length_digits(head, i) =~= Seq::empty());
}

/// A request as a client writes it.
pub enum Written {
    /// A readiness probe with this head.
    Probe(Seq<u8>),
    /// A request for the score of a body.
    Score(ScoreHead, Seq<u8>),
}

/// The bytes of a request.
pub open spec fn written_bytes(w: Written) -> Seq<u8> {
    match w {
        Written::Probe(head) => message(head, Seq::empty()),
        Written::Score(h, body) => message(head_bytes(h, body.len()), body),
    }
}

/// The request is well-formed and a connection can hold it.
pub open spec fn is_written(w: Written) -> bool {
    &&& written_bytes(w).len() <= RX_CAP
    &&& match w {
        Written::Probe(head) => is_head(head) && begins(head, "GET /ready".spec_bytes()),
        Written::Score(h, body) => is_score_head(h, body.len()),
    }
}

/// The bytes of requests, one after another.
pub open spec fn stream_of(ws: Seq<Written>) -> Seq<u8>
    decreases ws.len(),
{
    if ws.len() == 0 {
        Seq::empty()
    } else {
        written_bytes(ws[0]) + stream_of(ws.drop_first())
    }
}

/// The bodies among requests, in their order.
pub open spec fn bodies_of(ws: Seq<Written>) -> Seq<Seq<u8>>
    decreases ws.len(),
{
    if ws.len() == 0 {
        Seq::empty()
    } else {
        (match ws[0] {
            Written::Probe(_) => Seq::empty(),
            Written::Score(_, body) => seq![body],
        }) + bodies_of(ws.drop_first())
    }
}

/// The answers to requests, in their order, where `answers` are the scores of their bodies.
pub open spec fn replies_to(ws: Seq<Written>, answers: Seq<Option<usize>>) -> Seq<u8>
    decreases ws.len(),
{
    if ws.len() == 0 {
        Seq::empty()
    } else {
        match ws[0] {
            Written::Probe(_) => RESP_READY.spec_bytes() + replies_to(ws.drop_first(), answers),
            Written::Score(_, _) => score_answer(answers.first()) + replies_to(
                ws.drop_first(),
                answers.drop_first(),
            ),
        }
    }
}

/// The answers to `ws` come first, and then what comes of `rest`.
pub open spec fn answered_in_turn(
    ws: Seq<Written>,
    rest: Seq<u8>,
    answers: Seq<Option<usize>>,
) -> bool {
    drain(stream_of(ws) + rest, answers) == after_reply(
        replies_to(ws, answers),
        bodies_of(ws),
        drain(rest, answers.skip(bodies_of(ws).len() as int)),
    )
}

/// What comes of a stream that begins with a readiness probe.
#[verifier::spinoff_prover]
proof fn lemma_probe_first(head: Seq<u8>, tail: Seq<u8>, answers: Seq<Option<usize>>)
    requires
        is_written(Written::Probe(head)),
    ensures
        drain(written_bytes(Written::Probe(head)) + tail, answers) == after_reply(
            RESP_READY.spec_bytes(),
            Seq::empty(),
            drain(tail, answers),
        ),
{
    let b = written_bytes(Written::Probe(head));
    law_ready_requests_read_back(head, Seq::empty());
    lemma_window_request(b, tail);
    assert(b.len() == head.len() + 4);
    lemma_drain_ready(b + tail, answers, b.len() as int);
    assert((b + tail).skip(b.len() as int) =~= tail);
}

/// What comes of a stream that begins with a request for a score.
#[verifier::spinoff_prover]
proof fn lemma_score_first(h: ScoreHead, body: Seq<u8>, tail: Seq<u8>, answers: Seq<Option<usize>>)
    requires
        is_written(Written::Score(h, body)),
    ensures
        drain(written_bytes(Written::Score(h, body)) + tail, answers) == after_reply(
            score_answer(answers.first()),
            seq![body],
            drain(tail, answers.drop_first()),
        ),
{
    let b = written_bytes(Written::Score(h, body));
    let start = (head_bytes(h, body.len()).len() + 4) as int;
    let end = start + body.len();
    law_score_requests_read_back(h, body, Seq::empty());
    assert(b + Seq::<u8>::empty() =~= b);
    assert(b.len() == end);
    lemma_window_request(b, tail);
    lemma_drain_fraud(b + tail, answers, start, end, end);
    assert((b + tail).skip(end) =~= tail);
    assert((b + tail).subrange(start, end) =~= b.subrange(start, end));
}

/// Written requests are answered in turn, each with one answer, and each score is asked for the
/// body that was written. What follows them is answered as if it had come alone.
pub proof fn law_written_requests_are_answered_in_turn(
    ws: Seq<Written>,
    rest: Seq<u8>,
    answers: Seq<Option<usize>>,
)
    requires
        forall|i: int| 0 <= i < ws.len() ==> is_written(#[trigger] ws[i]),
        bodies_of(ws).len() <= answers.len(),
    ensures
        answered_in_turn(ws, rest, answers),
    decreases ws.len(),
{
    let none = Seq::<Seq<u8>>::empty();
    if ws.len() == 0 {
        let d = drain(rest, answers);
        assert(stream_of(ws) + rest =~= rest);
        assert(answers.skip(0) =~= answers);
        assert(Seq::<u8>::empty() + d.replies =~= d.replies);
        assert(none + d.bodies =~= d.bodies);
    } else {
        let others = ws.drop_first();
        let tail = stream_of(others) + rest;
        assert(is_written(ws[0]));
        assert(stream_of(ws) + rest =~= written_bytes(ws[0]) + tail);
        assert forall|i: int| 0 <= i < others.len() implies is_written(#[trigger] others[i]) by {
            assert(others[i] == ws[i + 1]);
        }
        match ws[0] {
            Written::Probe(head) => {
                lemma_probe_first(head, tail, answers);
                assert(none + bodies_of(others) =~= bodies_of(others));
                law_written_requests_are_answered_in_turn(others, rest, answers);
                lemma_replies_compose(
                    RESP_READY.spec_bytes(),
                    none,
                    replies_to(others, answers),
                    bodies_of(others),
                    drain(rest, answers.skip(bodies_of(others).len() as int)),
                );
            },
            Written::Score(h, body) => {
                let later = answers.drop_first();
                lemma_score_first(h, body, tail, answers);
                law_written_requests_are_answered_in_turn(others, rest, later);
                assert(later.skip(bodies_of(others).len() as int) =~= answers.skip(
                    bodies_of(ws).len() as int,
                ));
                lemma_replies_compose(
                    score_answer(answers.first()),
                    seq![body],
                    replies_to(others, later),
                    bodies_of(others),
                    drain(rest, later.skip(bodies_of(others).len() as int)),
                );
            },
        }
    }
}

/// A body that could not be scored is answered as one without frauds, and more than five frauds as
/// five.
pub proof fn law_answers_by_frauds(n: usize)
    ensures
        score_answer(None) == score_answer(Some(0)),
        n >= 5 ==> score_answer(Some(n)) == score_answer(Some(5)),
{
}

/// A request for something that is not on offer is answered with `404`, and closes the connection.
pub proof fn law_other_requests_close(head: Seq<u8>, rest: Seq<u8>, answers: Seq<Option<usize>>)
    requires
        is_head(head),
        head.len() + 4 <= RX_CAP,
        !begins(ended(head), "GET /ready".spec_bytes()),
        !begins(ended(head), "POST /fraud-score".spec_bytes()),
    ensures
        drain(ended(head) + rest, answers) == (Drained {
            rest,
            replies: RESP_404.spec_bytes(),
            close: true,
            bodies: Seq::empty(),
        }),
{
    let none = Seq::<u8>::empty();
    assert(message(head, none) =~= ended(head));
    law_other_requests_are_not_found(head, none);
    lemma_window_request(ended(head), rest);
    assert((ended(head) + rest).skip((head.len() + 4) as int) =~= rest);
}

/// A request for a score that announces no length is answered with `400`, and closes the
/// connection.
pub proof fn law_requests_without_length_close(
    head: Seq<u8>,
    rest: Seq<u8>,
    answers: Seq<Option<usize>>,
)
    requires
        is_head(head),
        head.len() + 4 <= RX_CAP,
        begins(head, "POST /fraud-score".spec_bytes()),
        forall|i: int| 0 <= i < head.len() && line_at(head, i) ==> !#[trigger] name_at(head, i),
    ensures
        drain(ended(head) + rest, answers) == (Drained {
            rest: ended(head) + rest,
            replies: RESP_400.spec_bytes(),
            close: true,
            bodies: Seq::empty(),
        }),
{
    let none = Seq::<u8>::empty();
    assert(message(head, none) =~= ended(head));
    law_requests_without_length_are_bad(head, none);
    lemma_window_request(ended(head), rest);
}

/// A client that sends 16384 bytes without a blank line is refused with `400`; one that sends less
/// than that is waited for.
pub proof fn law_endless_heads_are_refused(stream: Seq<u8>, answers: Seq<Option<usize>>)
    requires
        forall|r: int| 0 <= r < stream.len() ==> !#[trigger] blank_at(stream, r),
    ensures
        transcript(stream, answers).bodies == Seq::<Seq<u8>>::empty(),
        stream.len() >= 16_384 ==> transcript(stream, answers).sent == RESP_400.spec_bytes(),
        stream.len() < 16_384 ==> transcript(stream, answers).sent == Seq::<u8>::empty(),
{
    let w = window(stream);
    assert forall|r: int| 0 <= r < w.len() implies !#[trigger] blank_at(w, r) by {
        assert(!blank_at(stream, r));
    }
    law_requests_wait_for_their_head(w);
    let none = Seq::<u8>::empty();
    assert(none + RESP_400.spec_bytes() =~= RESP_400.spec_bytes());
    assert(none + none =~= none);
}

/// A written request announces a length that can be counted with, and so does what follows it, if
/// that does alone.
#[verifier::spinoff_prover]
proof fn lemma_first_can_be_counted(w: Written, tail: Seq<u8>)
    requires
        is_written(w),
    ensures
        stays_countable(written_bytes(w) + tail) == stays_countable(tail),
{
    let b = written_bytes(w);
    let all = b + tail;
    match w {
        Written::Probe(head) => {
            law_ready_requests_read_back(head, tail);
            assert(all =~= message(head, tail));
            lemma_head_end(head, tail);
            lemma_first_lines();
            assert forall|i: int| 0 <= i < "GET /ready".spec_bytes().len() implies
                #[trigger] "GET /ready".spec_bytes()[i] == all[i] by {
                assert("GET /ready".spec_bytes()[i] == head[i]);
            }
            lemma_begins(all, READY_LINE.spec_bytes());
        },
        Written::Score(h, body) => {
            let head = head_bytes(h, body.len());
            law_score_requests_read_back(h, body, tail);
            assert(all =~= message(head, body + tail));
            lemma_head_end(head, body + tail);
            lemma_length_reads_back(h, body.len());
        },
    }
    assert(all.skip(b.len() as int) =~= tail);
}

/// Written requests announce lengths that can be counted with.
pub proof fn law_written_requests_can_be_counted(ws: Seq<Written>, rest: Seq<u8>)
    requires
        forall|i: int| 0 <= i < ws.len() ==> is_written(#[trigger] ws[i]),
        forall|r: int| 0 <= r < rest.len() ==> !#[trigger] blank_at(rest, r),
    ensures
        stays_countable(stream_of(ws) + rest),
    decreases ws.len(),
{
    if ws.len() == 0 {
        assert(stream_of(ws) + rest =~= rest);
        law_requests_wait_for_their_head(rest);
    } else {
        let others = ws.drop_first();
        assert(is_written(ws[0]));
        assert forall|i: int| 0 <= i < others.len() implies is_written(#[trigger] others[i]) by {
            assert(others[i] == ws[i + 1]);
        }
        law_written_requests_can_be_counted(others, rest);
        assert(stream_of(ws) + rest =~= written_bytes(ws[0]) + (stream_of(others) + rest));
        lemma_first_can_be_counted(ws[0], stream_of(others) + rest);
    }
}

/// A request for a score can be counted with if and only if its head and the length that it
/// announces do not exceed what the machine counts to.
pub proof fn law_lengths_that_can_be_counted(h: ScoreHead, n: nat, rest: Seq<u8>)
    requires
        is_score_head(h, n),
    ensures
        is_countable(message(head_bytes(h, n), rest)) <==> head_bytes(h, n).len() + 4 + n
            <= usize::MAX,
{
    let head = head_bytes(h, n);
    let m = message(head, rest);
    let line = "POST /fraud-score".spec_bytes();
    lemma_head_end(head, rest);
    assert forall|i: int| 0 <= i < line.len() implies #[trigger] line[i] == m[i] by {
        assert(line[i] == h.before[i]);
        assert(head[i] == h.before[i]);
        assert(m[i] == head[i]);
    }
    lemma_score_begins(m);
    lemma_length_reads_back(h, n);
}

/// A request for a score that has no room in the buffer is refused once the buffer is full, and
/// waited for until it is.
pub proof fn law_oversized_requests_are_refused(
    h: ScoreHead,
    n: nat,
    part: Seq<u8>,
    answers: Seq<Option<usize>>,
)
    requires
        is_score_head(h, n),
        head_bytes(h, n).len() + 4 <= 16_384,
        head_bytes(h, n).len() + 4 + n > 16_384,
    ensures
        ({
            let stream = message(head_bytes(h, n), part);
            &&& transcript(stream, answers).bodies == Seq::<Seq<u8>>::empty()
            &&& stream.len() >= 16_384 ==> transcript(stream, answers).sent
                == RESP_400.spec_bytes()
            &&& stream.len() < 16_384 ==> transcript(stream, answers).sent == Seq::<u8>::empty()
        }),
{
    let head = head_bytes(h, n);
    let stream = message(head, part);
    let none = Seq::<u8>::empty();
    let held = if stream.len() <= RX_CAP {
        part
    } else {
        part.take(RX_CAP - head.len() - 4)
    };
    assert(window(stream) =~= message(head, held));
    law_score_requests_wait_for_their_body(h, n, held);
    assert(none + RESP_400.spec_bytes() =~= RESP_400.spec_bytes());
    assert(none + none =~= none);
}

/// Each answer is what the scorer may say of the body in the same place, all of it.
pub proof fn law_answers_are_scores_of_the_bodies<F: Fn(&[u8]) -> Option<usize>>(
    score: F,
    bodies: Seq<Seq<u8>>,
    answers: Seq<Option<usize>>,
    i: int,
)
    requires
        may_score_all(score, bodies, answers),
        0 <= i < bodies.len(),
    ensures
        answers.len() == bodies.len(),
        exists|b: &[u8]| b@ == bodies[i] && #[trigger] call_ensures(score, (b,), answers[i]),
{
    assert(may_score(score, bodies[i], answers[i]));
}

} // verus!
