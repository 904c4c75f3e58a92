//! Answering requests: what the bytes received from a client ask for, and what is sent back.

use vstd::prelude::*;
use vstd::string::StringSliceAdditionalSpecFns;
use crate::scan::{
    first_occurrence,
    has_prefix,
    lemma_first_occurrence,
    lemma_run_end,
    occurs_at,
    occurs_first_at,
    run_end,
    skip_run,
    starts_with,
    ByteSet,
};
use crate::timestamp::{decimal, from_zero, lemma_decimal_prefix};

verus! {

/// Bytes of requests that a connection can hold.
pub const RX_CAP: usize = 16 * 1024;

/// Answer for no fraudulent neighbour.
pub const RESP_FRAUD_0: &'static str = "HTTP/1.1 200 OK\r\nContent-Type: application/json\r\nContent-Length: 35\r\nConnection: keep-alive\r\n\r\n{\"approved\":true,\"fraud_score\":0.0}";

/// Answer for one fraudulent neighbour.
pub const RESP_FRAUD_1: &'static str = "HTTP/1.1 200 OK\r\nContent-Type: application/json\r\nContent-Length: 35\r\nConnection: keep-alive\r\n\r\n{\"approved\":true,\"fraud_score\":0.2}";

/// Answer for two fraudulent neighbours.
pub const RESP_FRAUD_2: &'static str = "HTTP/1.1 200 OK\r\nContent-Type: application/json\r\nContent-Length: 35\r\nConnection: keep-alive\r\n\r\n{\"approved\":true,\"fraud_score\":0.4}";

/// Answer for three fraudulent neighbours.
pub const RESP_FRAUD_3: &'static str = "HTTP/1.1 200 OK\r\nContent-Type: application/json\r\nContent-Length: 36\r\nConnection: keep-alive\r\n\r\n{\"approved\":false,\"fraud_score\":0.6}";

/// Answer for four fraudulent neighbours.
pub const RESP_FRAUD_4: &'static str = "HTTP/1.1 200 OK\r\nContent-Type: application/json\r\nContent-Length: 36\r\nConnection: keep-alive\r\n\r\n{\"approved\":false,\"fraud_score\":0.8}";

/// Answer for five fraudulent neighbours.
pub const RESP_FRAUD_5: &'static str = "HTTP/1.1 200 OK\r\nContent-Type: application/json\r\nContent-Length: 36\r\nConnection: keep-alive\r\n\r\n{\"approved\":false,\"fraud_score\":1.0}";

/// Answer to a readiness probe.
pub const RESP_READY: &'static str = "HTTP/1.1 200 OK\r\nContent-Length: 0\r\nConnection: keep-alive\r\n\r\n";

/// Answer to a request for anything else.
pub const RESP_404: &'static str = "HTTP/1.1 404 Not Found\r\nContent-Length: 0\r\nConnection: close\r\n\r\n";

/// Answer to a request that cannot be understood.
pub const RESP_400: &'static str = "HTTP/1.1 400 Bad Request\r\nContent-Length: 0\r\nConnection: close\r\n\r\n";

/// How a readiness probe begins.
pub const READY_LINE: &'static str = "GET /ready";

/// How a request for a score begins.
pub const SCORE_LINE: &'static str = "POST /fraud-score";

/// Name of the header that gives the length of a body, with its colon.
pub const LENGTH_KEY: &'static str = "content-length:";

/// The answer for a number of fraudulent neighbours.
pub open spec fn fraud_answer(frauds: int) -> Seq<u8> {
    if frauds <= 0 {
        RESP_FRAUD_0.spec_bytes()
    } else if frauds == 1 {
        RESP_FRAUD_1.spec_bytes()
    } else if frauds == 2 {
        RESP_FRAUD_2.spec_bytes()
    } else if frauds == 3 {
        RESP_FRAUD_3.spec_bytes()
    } else if frauds == 4 {
        RESP_FRAUD_4.spec_bytes()
    } else {
        RESP_FRAUD_5.spec_bytes()
    }
}

/// The answer to a request for a score; a body that could not be scored counts as no fraud.
pub open spec fn score_answer(frauds: Option<usize>) -> Seq<u8> {
    match frauds {
        None => fraud_answer(0),
        Some(n) => fraud_answer(n as int),
    }
}

/// The answer to a request for a score.
pub fn score_response(frauds: Option<usize>) -> (r: &'static str)
    ensures
        r.spec_bytes() == score_answer(frauds),
{
    match frauds {
        None => RESP_FRAUD_0,
        Some(n) => if n == 0 {
            RESP_FRAUD_0
        } else if n == 1 {
            RESP_FRAUD_1
        } else if n == 2 {
            RESP_FRAUD_2
        } else if n == 3 {
            RESP_FRAUD_3
        } else if n == 4 {
            RESP_FRAUD_4
        } else {
            RESP_FRAUD_5
        },
    }
}

/// The blank line that ends a head.
pub open spec fn blank_line() -> Seq<u8> {
    seq![13, 10, 13, 10]
}

/// Where the head of a request ends: before the first blank line.
pub open spec fn head_end(buf: Seq<u8>) -> Option<int> {
    first_occurrence(buf, blank_line())
}

/// Finds where the head of a request ends.
pub fn find_double_crlf(buf: &[u8]) -> (r: Option<usize>)
    ensures
        match r {
            None => head_end(buf@) is None,
            Some(p) => head_end(buf@) == Some(p as int) && p + 4 <= buf@.len() <= usize::MAX,
        },
{
    assert(buf.len() == buf@.len());
    if buf.len() < 4 {
        return None;
    }
    let mut i: usize = 0;
    while i <= buf.len() - 4
        invariant
            4 <= buf@.len() <= usize::MAX,
            i <= buf@.len() - 3,
            forall|r: int| 0 <= r < i ==> !#[trigger] occurs_at(buf@, blank_line(), r),
        decreases buf@.len() - i,
    {
        if buf[i] == 13 && buf[i + 1] == 10 && buf[i + 2] == 13 && buf[i + 3] == 10 {
            proof {
                assert(buf@.subrange(i as int, i + 4) =~= blank_line());
                lemma_first_occurrence(buf@, blank_line(), i as int);
            }
            return Some(i);
        }
        proof {
            if occurs_at(buf@, blank_line(), i as int) {
                let s = buf@.subrange(i as int, i + 4);
                assert(s == blank_line());
                assert(s[0] == 13 && s[1] == 10 && s[2] == 13 && s[3] == 10);
            }
        }
        i += 1;
    }
    proof {
        if exists|p: int| occurs_first_at(buf@, blank_line(), p) {
            let p = choose|p: int| occurs_first_at(buf@, blank_line(), p);
            assert(occurs_at(buf@, blank_line(), p));
        }
    }
    None
}

/// The lower-case letter of an upper-case one; any other byte as it is.
pub open spec fn lower(c: u8) -> u8 {
    if 65 <= c <= 90 {
        (c + 32) as u8
    } else {
        c
    }
}

/// A line that begins at `i` begins with the name of the length header, in any case of letters.
pub open spec fn is_length_line(head: Seq<u8>, i: int) -> bool {
    let key = LENGTH_KEY.spec_bytes();
    &&& 0 <= i
    &&& i + key.len() <= head.len()
    &&& i == 0 || head[i - 1] == 10
    &&& forall|k: int| 0 <= k < key.len() ==> lower(#[trigger] head[i + k]) == lower(key[k])
}

/// The first such line begins at `i`.
pub open spec fn is_first_length_line(head: Seq<u8>, i: int) -> bool {
    &&& is_length_line(head, i)
    &&& forall|r: int| 0 <= r < i ==> !#[trigger] is_length_line(head, r)
}

/// The digits of the length header that begins at `i`.
pub open spec fn length_digits(head: Seq<u8>, i: int) -> Seq<u8> {
    let j = run_end(head, i + LENGTH_KEY.spec_bytes().len(), ByteSet::Gap);
    head.subrange(j, run_end(head, j, ByteSet::Digit))
}

/// The length of the body that a head announces: the first length header counts, and it must have
/// digits.
pub open spec fn content_length(head: Seq<u8>) -> Option<int> {
    if exists|i: int| is_first_length_line(head, i) {
        let digits = length_digits(head, choose|i: int| is_first_length_line(head, i));
        if digits.len() > 0 {
            Some(decimal(digits))
        } else {
            None
        }
    } else {
        None
    }
}

/// There is one first line only.
pub proof fn lemma_content_length(head: Seq<u8>, i: int)
    requires
        is_first_length_line(head, i),
    ensures
        content_length(head) == {
            let digits = length_digits(head, i);
            if digits.len() > 0 {
                Some(decimal(digits))
            } else {
                None
            }
        },
{
    let r = choose|r: int| is_first_length_line(head, r);
    assert(is_first_length_line(head, r));
    if r < i {
        assert(!is_length_line(head, r));
    } else if i < r {
        assert(!is_length_line(head, i));
    }
}

/// The lower-case letter of an upper-case one.
fn lower_byte(c: u8) -> (r: u8)
    ensures
        r == lower(c),
{
    if 65 <= c && c <= 90 {
        c + 32
    } else {
        c
    }
}

/// Compares the name of a header with what stands at `i`, regardless of the case of letters.
fn has_name_at(head: &[u8], i: usize, key: &[u8]) -> (b: bool)
    requires
        i + key@.len() <= head@.len(),
    ensures
        b == forall|k: int|
            0 <= k < key@.len() ==> lower(#[trigger] head@[i + k]) == lower(key@[k]),
{
    let mut n: usize = 0;
    assert(head.len() == head@.len());
    while n < key.len()
        invariant
            n <= key@.len(),
            i + key@.len() <= head@.len() <= usize::MAX,
            forall|k: int| 0 <= k < n ==> lower(#[trigger] head@[i + k]) == lower(key@[k]),
        decreases key@.len() - n,
    {
        if lower_byte(head[i + n]) != lower_byte(key[n]) {
            assert(lower(head@[i + n]) != lower(key@[n as int]));
            return false;
        }
        n += 1;
    }
    true
}

/// The name of the length header takes fifteen bytes.
proof fn lemma_length_key()
    ensures
        LENGTH_KEY.spec_bytes().len() == 15,
{
    reveal_strlit("content-length:");
    assert(LENGTH_KEY@ == "content-length:"@);
    vstd::utf8::is_ascii_chars_encode_utf8(LENGTH_KEY@);
}

/// Finds the digits of the length that a head announces.
fn find_length_digits(head: &[u8]) -> (r: Option<(usize, usize)>)
    ensures
        match r {
            None => content_length(head@) is None,
            Some((j, e)) => {
                &&& j < e <= head@.len()
                &&& content_length(head@) == Some(decimal(head@.subrange(j as int, e as int)))
                &&& forall|k: int| j <= k < e ==> ByteSet::Digit.holds(#[trigger] head@[k])
            },
        },
{
    let key: &[u8] = LENGTH_KEY.as_bytes();
    let mut i: usize = 0;
    assert(head.len() == head@.len());
    proof {
        lemma_length_key();
    }
    while key.len() <= head.len() && i <= head.len() - key.len()
        invariant
            key@ == LENGTH_KEY.spec_bytes(),
            key@.len() == 15,
            i <= head@.len() <= usize::MAX,
            forall|r: int| 0 <= r < i ==> !#[trigger] is_length_line(head@, r),
        decreases head@.len() - i,
    {
        let at_line_start: bool = i == 0 || head[i - 1] == 10;
        if at_line_start && has_name_at(head, i, key) {
            let j: usize = skip_run(head, i + key.len(), ByteSet::Gap);
            let e: usize = skip_run(head, j, ByteSet::Digit);
            proof {
                assert(is_first_length_line(head@, i as int));
                lemma_content_length(head@, i as int);
                lemma_run_end(head@, j as int, ByteSet::Digit);
            }
            return if j < e {
                Some((j, e))
            } else {
                None
            };
        }
        i += 1;
    }
    None
}

/// Reads a run of digits, or gives `None` where the number exceeds the range of `usize`.
fn read_decimal(b: &[u8]) -> (r: Option<usize>)
    requires
        forall|k: int| 0 <= k < b@.len() ==> ByteSet::Digit.holds(#[trigger] b@[k]),
    ensures
        match r {
            None => decimal(b@) > usize::MAX,
            Some(n) => n == decimal(b@),
        },
{
    let mut n: usize = 0;
    let mut i: usize = 0;
    assert(b@.take(0) =~= Seq::empty());
    while i < b.len()
        invariant
            i <= b@.len(),
            forall|k: int| 0 <= k < b@.len() ==> ByteSet::Digit.holds(#[trigger] b@[k]),
            n == decimal(b@.take(i as int)),
        decreases b@.len() - i,
    {
        let digit: usize = (b[i] - 48) as usize;
        proof {
            assert(from_zero(b@));
            assert(b@.take(i + 1).drop_last() =~= b@.take(i as int));
            lemma_decimal_prefix(b@, i + 1);
        }
        match n.checked_mul(10) {
            None => return None,
            Some(tens) => match tens.checked_add(digit) {
                None => return None,
                Some(m) => {
                    n = m;
                },
            },
        }
        i += 1;
    }
    assert(b@.take(i as int) =~= b@);
    Some(n)
}

/// Finds the length of the body that a head announces.
pub fn find_content_length(head: &[u8]) -> (r: Option<usize>)
    requires
        content_length(head@) matches Some(n) ==> n <= usize::MAX,
    ensures
        match r {
            None => content_length(head@) is None,
            Some(n) => content_length(head@) == Some(n as int),
        },
{
    match find_length_digits(head) {
        None => None,
        Some((j, e)) => {
            let digits: &[u8] = &head[j..e];
            assert(forall|k: int|
                0 <= k < digits@.len() ==> ByteSet::Digit.holds(#[trigger] digits@[k]));
            read_decimal(digits)
        },
    }
}

/// What the bytes received so far ask for.
#[derive(Clone, Copy)]
pub enum ParseResult {
    /// The head is not complete.
    Incomplete,
    /// The body is not complete.
    NeedBody,
    /// The request cannot be understood.
    Bad,
    /// A readiness probe.
    Ready { consumed: usize },
    /// Something that is not on offer.
    NotFound { consumed: usize },
    /// A score for the body from `body_start` up to `body_end`.
    Fraud { body_start: usize, body_end: usize, consumed: usize },
}

/// What bytes ask for, with positions as mathematical integers.
pub enum Request {
    /// The head is not complete.
    Incomplete,
    /// The body is not complete.
    NeedBody,
    /// The request cannot be understood.
    Bad,
    /// A readiness probe.
    Ready { consumed: int },
    /// Something that is not on offer.
    NotFound { consumed: int },
    /// A score for the body from `body_start` up to `body_end`.
    Fraud { body_start: int, body_end: int, consumed: int },
}

impl View for ParseResult {
    type V = Request;

    open spec fn view(&self) -> Request {
        match *self {
            ParseResult::Incomplete => Request::Incomplete,
            ParseResult::NeedBody => Request::NeedBody,
            ParseResult::Bad => Request::Bad,
            ParseResult::Ready { consumed } => Request::Ready { consumed: consumed as int },
            ParseResult::NotFound { consumed } => Request::NotFound { consumed: consumed as int },
            ParseResult::Fraud { body_start, body_end, consumed } => Request::Fraud {
                body_start: body_start as int,
                body_end: body_end as int,
                consumed: consumed as int,
            },
        }
    }
}

/// What the bytes `buf` ask for.
pub open spec fn request_of(buf: Seq<u8>) -> Request {
    match head_end(buf) {
        None => Request::Incomplete,
        Some(p) => {
            let head_len = p + 4;
            if has_prefix(buf, READY_LINE.spec_bytes()) {
                Request::Ready { consumed: head_len }
            } else if has_prefix(buf, SCORE_LINE.spec_bytes()) {
                match content_length(buf.take(p)) {
                    None => Request::Bad,
                    Some(n) => if buf.len() < head_len + n {
                        Request::NeedBody
                    } else {
                        Request::Fraud {
                            body_start: head_len,
                            body_end: head_len + n,
                            consumed: head_len + n,
                        }
                    },
                }
            } else {
                Request::NotFound { consumed: head_len }
            }
        },
    }
}

/// The request at the beginning of `buf` announces a length that can be counted with.
pub open spec fn is_countable(buf: Seq<u8>) -> bool {
    match head_end(buf) {
        None => true,
        Some(p) => !has_prefix(buf, READY_LINE.spec_bytes()) && has_prefix(
            buf,
            SCORE_LINE.spec_bytes(),
        ) ==> match content_length(buf.take(p)) {
            None => true,
            Some(n) => p + 4 + n <= usize::MAX,
        },
    }
}

/// Tests that the request at the beginning of `buf` announces a length that can be counted with.
pub fn has_countable_length(buf: &[u8]) -> (ok: bool)
    ensures
        ok == is_countable(buf@),
{
    let head_end: usize = match find_double_crlf(buf) {
        None => return true,
        Some(p) => p,
    };
    if starts_with(buf, READY_LINE.as_bytes()) || !starts_with(buf, SCORE_LINE.as_bytes()) {
        return true;
    }
    let head: &[u8] = &buf[0..head_end];
    assert(head@ =~= buf@.take(head_end as int));
    match find_length_digits(head) {
        None => true,
        Some((j, e)) => {
            let digits: &[u8] = &head[j..e];
            assert(forall|k: int|
                0 <= k < digits@.len() ==> ByteSet::Digit.holds(#[trigger] digits@[k]));
            match read_decimal(digits) {
                None => false,
                Some(n) => n <= usize::MAX - (head_end + 4),
            }
        },
    }
}

/// Finds out what the bytes received so far ask for.
pub fn parse_request(buf: &[u8]) -> (r: ParseResult)
    requires
        is_countable(buf@),
    ensures
        r@ == request_of(buf@),
{
    let head_end: usize = match find_double_crlf(buf) {
        None => return ParseResult::Incomplete,
        Some(p) => p,
    };
    let head_len: usize = head_end + 4;
    if starts_with(buf, READY_LINE.as_bytes()) {
        return ParseResult::Ready { consumed: head_len };
    }
    if starts_with(buf, SCORE_LINE.as_bytes()) {
        let head: &[u8] = &buf[0..head_end];
        assert(head@ =~= buf@.take(head_end as int));
        proof {
            lemma_content_length_is_positive(head@);
        }
        let length: usize = match find_content_length(head) {
            None => return ParseResult::Bad,
            Some(n) => n,
        };
        if buf.len() < head_len + length {
            return ParseResult::NeedBody;
        }
        return ParseResult::Fraud {
            body_start: head_len,
            body_end: head_len + length,
            consumed: head_len + length,
        };
    }
    ParseResult::NotFound { consumed: head_len }
}

/// An announced length is not negative.
proof fn lemma_content_length_is_positive(head: Seq<u8>)
    ensures
        content_length(head) matches Some(n) ==> n >= 0,
{
    if exists|i: int| is_first_length_line(head, i) {
        let i = choose|i: int| is_first_length_line(head, i);
        let j = run_end(head, i + LENGTH_KEY.spec_bytes().len(), ByteSet::Gap);
        lemma_run_end(head, i + LENGTH_KEY.spec_bytes().len(), ByteSet::Gap);
        lemma_run_end(head, j, ByteSet::Digit);
        let digits = length_digits(head, i);
        assert(from_zero(digits));
        lemma_decimal_prefix(digits, digits.len() as int);
        assert(digits.take(digits.len() as int) =~= digits);
    }
}

/// Drops the first `consumed` of the `filled` bytes that `buf` holds, and moves the others to the
/// front.
pub fn consume(buf: &mut [u8], filled: &mut usize, consumed: usize)
    requires
        *old(filled) <= old(buf)@.len(),
    ensures
        final(buf)@.len() == old(buf)@.len(),
        *final(filled) == if consumed >= *old(filled) {
            0
        } else {
            *old(filled) - consumed
        },
        forall|i: int|
            0 <= i < *final(filled) ==> #[trigger] final(buf)@[i] == old(buf)@[i + consumed],
        forall|i: int|
            *final(filled) <= i < old(buf)@.len() ==> #[trigger] final(buf)@[i] == old(buf)@[i],
{
    if consumed >= *filled {
        *filled = 0;
    } else {
        let n: usize = *filled - consumed;
        let mut i: usize = 0;
        while i < n
            invariant
                n + consumed == *old(filled) <= old(buf)@.len(),
                i <= n,
                buf@.len() == old(buf)@.len(),
                *filled == *old(filled),
                forall|k: int| 0 <= k < i ==> #[trigger] buf@[k] == old(buf)@[k + consumed],
                forall|k: int| i <= k < old(buf)@.len() ==> #[trigger] buf@[k] == old(buf)@[k],
            decreases n - i,
        {
            buf[i] = buf[i + consumed];
            i += 1;
        }
        *filled = n;
    }
}

/// A request that is understood takes at least the four bytes of its blank line, and no more than
/// there are; its body is the last part of it.
pub proof fn law_requests_make_progress(buf: Seq<u8>)
    ensures
        match request_of(buf) {
            Request::Ready { consumed } => 4 <= consumed <= buf.len(),
            Request::NotFound { consumed } => 4 <= consumed <= buf.len(),
            Request::Fraud { body_start, body_end, consumed } => 4 <= body_start <= body_end
                == consumed <= buf.len(),
            _ => true,
        },
{
    if let Some(p) = head_end(buf) {
        assert(occurs_first_at(buf, blank_line(), p));
        lemma_content_length_is_positive(buf.take(p));
    }
}

/// What answering requests leads to.
pub struct Drained {
    /// Bytes that are left.
    pub rest: Seq<u8>,
    /// Bytes to be sent.
    pub replies: Seq<u8>,
    /// The connection is to be closed.
    pub close: bool,
    /// Bodies that scores were asked for.
    pub bodies: Seq<Seq<u8>>,
}

/// One more answer in front of `d`.
pub open spec fn after_reply(reply: Seq<u8>, bodies: Seq<Seq<u8>>, d: Drained) -> Drained {
    Drained { replies: reply + d.replies, bodies: bodies + d.bodies, ..d }
}

/// As much of a stream as a connection can hold.
pub open spec fn window(stream: Seq<u8>) -> Seq<u8> {
    if stream.len() <= RX_CAP {
        stream
    } else {
        stream.take(RX_CAP as int)
    }
}

/// The request at the beginning of `b` is not complete.
pub open spec fn is_undecided(b: Seq<u8>) -> bool {
    request_of(b) == Request::Incomplete || request_of(b) == Request::NeedBody
}

/// What answering the requests in `stream` leads to, where `answers` are the scores of the bodies
/// in turn. Requests are answered as long as complete ones are left that a connection can hold;
/// one that is not understood or not on offer is answered and ends it.
pub open spec fn drain(stream: Seq<u8>, answers: Seq<Option<usize>>) -> Drained
    decreases stream.len(),
{
    proof {
        law_requests_make_progress(window(stream));
    }
    match request_of(window(stream)) {
        Request::Incomplete | Request::NeedBody => Drained {
            rest: stream,
            replies: Seq::empty(),
            close: false,
            bodies: Seq::empty(),
        },
        Request::Bad => Drained {
            rest: stream,
            replies: RESP_400.spec_bytes(),
            close: true,
            bodies: Seq::empty(),
        },
        Request::NotFound { consumed } => Drained {
            rest: stream.skip(consumed),
            replies: RESP_404.spec_bytes(),
            close: true,
            bodies: Seq::empty(),
        },
        Request::Ready { consumed } => after_reply(
            RESP_READY.spec_bytes(),
            Seq::empty(),
            drain(stream.skip(consumed), answers),
        ),
        Request::Fraud { body_start, body_end, consumed } => after_reply(
            score_answer(answers.first()),
            seq![stream.subrange(body_start, body_end)],
            drain(stream.skip(consumed), answers.drop_first()),
        ),
    }
}

/// Every request that is met while `pending` is answered announces a length that can be counted
/// with.
pub open spec fn stays_countable(pending: Seq<u8>) -> bool
    decreases pending.len(),
{
    proof {
        law_requests_make_progress(pending);
    }
    is_countable(pending) && match request_of(pending) {
        Request::Ready { consumed } => stays_countable(pending.skip(consumed)),
        Request::Fraud { consumed, .. } => stays_countable(pending.skip(consumed)),
        _ => true,
    }
}

/// Tests that every request that is met while `pending` is answered announces a length that can be
/// counted with.
pub fn stays_in_range(pending: &[u8]) -> (ok: bool)
    ensures
        ok == stays_countable(pending@),
{
    let mut at: usize = 0;
    assert(pending@.skip(0) =~= pending@);
    assert(pending.len() == pending@.len());
    loop
        invariant
            at <= pending@.len() <= usize::MAX,
            stays_countable(pending@) == stays_countable(pending@.skip(at as int)),
        decreases pending@.len() - at,
    {
        let rest: &[u8] = &pending[at..pending.len()];
        assert(rest@ =~= pending@.skip(at as int));
        if !has_countable_length(rest) {
            return false;
        }
        proof {
            law_requests_make_progress(rest@);
        }
        match parse_request(rest) {
            ParseResult::Ready { consumed } => {
                assert(rest@.skip(consumed as int) =~= pending@.skip(at + consumed));
                at += consumed;
            },
            ParseResult::Fraud { consumed, .. } => {
                assert(rest@.skip(consumed as int) =~= pending@.skip(at + consumed));
                at += consumed;
            },
            _ => return true,
        }
    }
}

/// One client's connection.
pub struct Connection {
    rx: Vec<u8>,
    filled: usize,
    tx: Vec<u8>,
    close: bool,
}

/// `x` is what `score` may say of `body`.
pub open spec fn may_score<F: Fn(&[u8]) -> Option<usize>>(
    score: F,
    body: Seq<u8>,
    x: Option<usize>,
) -> bool {
    exists|b: &[u8]| b@ == body && #[trigger] call_ensures(score, (b,), x)
}

/// `answers` are what `score` may say of `bodies`, one by one.
pub open spec fn may_score_all<F: Fn(&[u8]) -> Option<usize>>(
    score: F,
    bodies: Seq<Seq<u8>>,
    answers: Seq<Option<usize>>,
) -> bool {
    &&& bodies.len() == answers.len()
    &&& forall|i: int| 0 <= i < bodies.len() ==> may_score(score, #[trigger] bodies[i], answers[i])
}

impl Connection {
    /// The buffer has its fixed size, and no more bytes are in it than that.
    pub closed spec fn wf(&self) -> bool {
        &&& self.rx@.len() == RX_CAP
        &&& self.filled <= RX_CAP
    }

    /// Bytes received and not yet answered.
    pub closed spec fn pending(&self) -> Seq<u8> {
        self.rx@.take(self.filled as int)
    }

    /// Bytes to be sent.
    pub closed spec fn outgoing(&self) -> Seq<u8> {
        self.tx@
    }

    /// The connection is to be closed once the outgoing bytes are sent.
    pub closed spec fn closing(&self) -> bool {
        self.close
    }

    /// A connection never holds more than its buffer does.
    pub proof fn law_pending_fits(&self)
        requires
            self.wf(),
        ensures
            self.pending().len() <= RX_CAP,
    {
    }

    /// A new connection.
    pub fn new() -> (c: Connection)
        ensures
            c.wf(),
            c.pending() == Seq::<u8>::empty(),
            c.outgoing() == Seq::<u8>::empty(),
            !c.closing(),
    {
        let mut rx: Vec<u8> = Vec::new();
        rx.resize(RX_CAP, 0);
        Connection { rx, filled: 0, tx: Vec::new(), close: false }
    }

    /// How many more bytes can be received.
    pub fn room(&self) -> (n: usize)
        requires
            self.wf(),
        ensures
            n + self.pending().len() == RX_CAP,
    {
        RX_CAP - self.filled
    }

    /// The bytes received and not yet answered.
    pub fn received(&self) -> (b: &[u8])
        requires
            self.wf(),
        ensures
            b@ == self.pending(),
    {
        let b: &[u8] = &self.rx.as_slice()[0..self.filled];
        assert(b@ =~= self.pending());
        b
    }

    /// The bytes to be sent.
    pub fn to_send(&self) -> (b: &[u8])
        ensures
            b@ == self.outgoing(),
    {
        self.tx.as_slice()
    }

    /// Whether the connection is to be closed once the outgoing bytes are sent.
    pub fn close_after(&self) -> (b: bool)
        ensures
            b == self.closing(),
    {
        self.close
    }

    /// Takes in bytes that came from the client. What was to be sent before is sent by now.
    pub fn receive(&mut self, bytes: &[u8])
        requires
            old(self).wf(),
            old(self).pending().len() + bytes@.len() <= RX_CAP,
        ensures
            final(self).wf(),
            final(self).pending() == old(self).pending() + bytes@,
            final(self).outgoing() == Seq::<u8>::empty(),
            !final(self).closing(),
    {
        let mut i: usize = 0;
        let ghost before = self.pending();
        let filled: usize = self.filled;
        while i < bytes.len()
            invariant
                i <= bytes@.len(),
                filled == before.len(),
                filled + bytes@.len() <= RX_CAP,
                self.rx@.len() == RX_CAP,
                self.rx@.take(filled + i) == before + bytes@.take(i as int),
            decreases bytes@.len() - i,
        {
            let ghost rx = self.rx@;
            self.rx[filled + i] = bytes[i];
            assert(self.rx@.take(filled + i + 1) =~= rx.take(filled + i).push(bytes@[i as int]));
            assert(bytes@.take(i + 1) =~= bytes@.take(i as int).push(bytes@[i as int]));
            i += 1;
        }
        self.filled = filled + bytes.len();
        self.tx.clear();
        self.close = false;
        assert(bytes@.take(i as int) =~= bytes@);
    }

    /// Adds to the bytes to be sent.
    fn reply(&mut self, text: &str)
        requires
            old(self).wf(),
        ensures
            final(self).wf(),
            final(self).pending() == old(self).pending(),
            final(self).outgoing() == old(self).outgoing() + text.spec_bytes(),
            final(self).closing() == old(self).closing(),
    {
        self.tx.extend_from_slice(text.as_bytes());
        assert(self.tx@ =~= old(self).tx@ + text.spec_bytes());
    }

    /// Drops the first pending bytes.
    fn discard(&mut self, consumed: usize)
        requires
            old(self).wf(),
            consumed <= old(self).pending().len(),
        ensures
            final(self).wf(),
            final(self).pending() == old(self).pending().skip(consumed as int),
            final(self).outgoing() == old(self).outgoing(),
            final(self).closing() == old(self).closing(),
    {
        consume(self.rx.as_mut_slice(), &mut self.filled, consumed);
        assert(self.pending() =~= old(self).pending().skip(consumed as int));
    }

    /// Refuses a client whose pending bytes leave no room for more: it sent too large a request, is
    /// answered so, and the connection is to be closed.
    pub fn refuse_when_full(&mut self) -> (full: bool)
        requires
            old(self).wf(),
        ensures
            full == (old(self).pending().len() == RX_CAP),
            final(self).wf(),
            final(self).pending() == old(self).pending(),
            full ==> final(self).outgoing() == RESP_400.spec_bytes() && final(self).closing(),
            !full ==> *final(self) == *old(self),
    {
        if self.filled < RX_CAP {
            return false;
        }
        self.tx.clear();
        self.reply(RESP_400);
        self.close = true;
        assert(self.outgoing() =~= RESP_400.spec_bytes());
        true
    }

    /// Answers the requests that are pending, scoring bodies with `score`.
    pub fn serve<F: Fn(&[u8]) -> Option<usize>>(&mut self, score: &F)
        requires
            old(self).wf(),
            stays_countable(old(self).pending()),
            forall|b: &[u8]| #[trigger] call_requires(*score, (b,)),
        ensures
            final(self).wf(),
            exists|answers: Seq<Option<usize>>|
                {
                    let d = #[trigger] drain(old(self).pending(), answers);
                    &&& may_score_all(*score, d.bodies, answers)
                    &&& final(self).pending() == d.rest
                    &&& final(self).outgoing() == old(self).outgoing() + d.replies
                    &&& final(self).closing() == (old(self).closing() || d.close)
                },
    {
        let ghost start = self.pending();
        let ghost sent = self.outgoing();
        let ghost mut given: Seq<Option<usize>> = Seq::empty();
        let ghost mut asked: Seq<Seq<u8>> = Seq::empty();
        let ghost mut replied: Seq<u8> = Seq::empty();
        proof {
            assert forall|more: Seq<Option<usize>>| #[trigger]
                drain(start, given + more) == after_reply(replied, asked, drain(start, more)) by {
                assert(given + more =~= more);
                let d = drain(start, more);
                assert(replied + d.replies =~= d.replies);
                assert(asked + d.bodies =~= d.bodies);
            }
        }
        loop
            invariant
                self.wf(),
                stays_countable(self.pending()),
                forall|b: &[u8]| #[trigger] call_requires(*score, (b,)),
                self.closing() == old(self).closing(),
                self.outgoing() == sent + replied,
                sent == old(self).outgoing(),
                start == old(self).pending(),
                may_score_all(*score, asked, given),
                forall|more: Seq<Option<usize>>| #[trigger]
                    drain(start, given + more) == after_reply(
                        replied,
                        asked,
                        drain(self.pending(), more),
                    ),
            decreases self.pending().len(),
        {
            let ghost pending = self.pending();
            proof {
                law_requests_make_progress(pending);
                assert(window(pending) == pending);
                assert(given + Seq::empty() =~= given);
                assert(drain(start, given + Seq::empty()) == after_reply(
                    replied,
                    asked,
                    drain(pending, Seq::empty()),
                ));
                assert(asked + Seq::<Seq<u8>>::empty() =~= asked);
                assert(replied + Seq::<u8>::empty() =~= replied);
            }
            match parse_request(self.received()) {
                ParseResult::Incomplete => {
                    return ;
                },
                ParseResult::NeedBody => {
                    return ;
                },
                ParseResult::Bad => {
                    self.reply(RESP_400);
                    self.close = true;
                    assert(self.outgoing() =~= sent + (replied + RESP_400.spec_bytes()));
                    assert(self.pending() == pending);
                    return ;
                },
                ParseResult::NotFound { consumed } => {
                    self.reply(RESP_404);
                    self.discard(consumed);
                    self.close = true;
                    assert(self.outgoing() =~= sent + (replied + RESP_404.spec_bytes()));
                    assert(self.pending() == pending.skip(consumed as int));
                    return ;
                },
                ParseResult::Ready { consumed } => {
                    self.reply(RESP_READY);
                    self.discard(consumed);
                    proof {
                        let reply = RESP_READY.spec_bytes();
                        assert forall|more: Seq<Option<usize>>| #[trigger]
                            drain(start, given + more) == after_reply(
                                replied + reply,
                                asked,
                                drain(self.pending(), more),
                            ) by {
                            let d = drain(self.pending(), more);
                            assert(drain(pending, more) == after_reply(reply, Seq::empty(), d));
                            assert(replied + (reply + d.replies) =~= (replied + reply) + d.replies);
                            assert(asked + (Seq::<Seq<u8>>::empty() + d.bodies) =~= asked
                                + d.bodies);
                        }
                        assert(self.outgoing() =~= sent + (replied + reply));
                        replied = replied + reply;
                    }
                },
                ParseResult::Fraud { body_start, body_end, consumed } => {
                    let body: &[u8] = &self.received()[body_start..body_end];
                    let ghost asked_body = body@;
                    let answer: Option<usize> = score(body);
                    assert(may_score(*score, asked_body, answer));
                    self.reply(score_response(answer));
                    self.discard(consumed);
                    proof {
                        let reply = score_answer(answer);
                        assert forall|more: Seq<Option<usize>>| #[trigger]
                            drain(start, given.push(answer) + more) == after_reply(
                                replied + reply,
                                asked.push(asked_body),
                                drain(self.pending(), more),
                            ) by {
                            let answers = seq![answer] + more;
                            let d = drain(self.pending(), more);
                            assert(given.push(answer) + more =~= given + answers);
                            assert(answers.drop_first() =~= more);
                            assert(answers.first() == answer);
                            assert(drain(pending, answers) == after_reply(
                                reply,
                                seq![asked_body],
                                d,
                            ));
                            assert(replied + (reply + d.replies) =~= (replied + reply) + d.replies);
                            assert(asked + (seq![asked_body] + d.bodies) =~= asked.push(asked_body)
                                + d.bodies);
                        }
                        assert(self.outgoing() =~= sent + (replied + reply));
                        assert(may_score_all(
                            *score,
                            asked.push(asked_body),
                            given.push(answer),
                        ));
                        replied = replied + reply;
                        given = given.push(answer);
                        asked = asked.push(asked_body);
                    }
                },
            }
        }
    }
}

/// No carriage return stands in `line`.
pub open spec fn is_one_line(line: Seq<u8>) -> bool {
    forall|i: int| 0 <= i < line.len() ==> #[trigger] line[i] != 13
}

/// The beginnings of requests that are told apart lie within one line.
proof fn lemma_lines()
    ensures
        is_one_line(READY_LINE.spec_bytes()),
        is_one_line(SCORE_LINE.spec_bytes()),
{
    reveal_strlit("GET /ready");
    assert(READY_LINE@ == "GET /ready"@);
    vstd::utf8::is_ascii_chars_encode_utf8(READY_LINE@);
    assert forall|i: int| 0 <= i < READY_LINE.spec_bytes().len() implies #[trigger]
        READY_LINE.spec_bytes()[i] != 13 by {
        assert(READY_LINE@[i] as u8 == READY_LINE.spec_bytes()[i]);
    }
    reveal_strlit("POST /fraud-score");
    assert(SCORE_LINE@ == "POST /fraud-score"@);
    vstd::utf8::is_ascii_chars_encode_utf8(SCORE_LINE@);
    assert forall|i: int| 0 <= i < SCORE_LINE.spec_bytes().len() implies #[trigger]
        SCORE_LINE.spec_bytes()[i] != 13 by {
        assert(SCORE_LINE@[i] as u8 == SCORE_LINE.spec_bytes()[i]);
    }
}

/// More bytes do not change how a request begins once its head is complete.
proof fn lemma_prefix_is_stable(a: Seq<u8>, b: Seq<u8>, p: int, line: Seq<u8>)
    requires
        occurs_at(a, blank_line(), p),
        is_one_line(line),
    ensures
        has_prefix(a + b, line) == has_prefix(a, line),
{
    if line.len() <= a.len() {
        assert((a + b).subrange(0, line.len() as int) =~= a.subrange(0, line.len() as int));
    } else if has_prefix(a + b, line) {
        assert(a.subrange(p, p + 4)[0] == 13);
        assert((a + b).subrange(0, line.len() as int)[p] == line[p]);
    }
}

/// More bytes do not move the end of a head.
proof fn lemma_head_is_stable(a: Seq<u8>, b: Seq<u8>, p: int)
    requires
        head_end(a) == Some(p),
    ensures
        occurs_first_at(a, blank_line(), p),
        head_end(a + b) == Some(p),
        (a + b).take(p) == a.take(p),
{
    assert(occurs_first_at(a, blank_line(), p));
    assert((a + b).subrange(p, p + 4) =~= a.subrange(p, p + 4));
    assert forall|r: int| 0 <= r < p implies !#[trigger] occurs_at(a + b, blank_line(), r) by {
        assert((a + b).subrange(r, r + 4) =~= a.subrange(r, r + 4));
        assert(!occurs_at(a, blank_line(), r));
    }
    lemma_first_occurrence(a + b, blank_line(), p);
    assert((a + b).take(p) =~= a.take(p));
}

/// Once it is known what the bytes received ask for, more bytes do not change it.
pub proof fn law_requests_stay_as_they_are(a: Seq<u8>, b: Seq<u8>)
    requires
        request_of(a) != Request::Incomplete,
        request_of(a) != Request::NeedBody,
    ensures
        request_of(a + b) == request_of(a),
{
    let p = head_end(a)->0;
    lemma_head_is_stable(a, b, p);
    lemma_lines();
    lemma_prefix_is_stable(a, b, p, READY_LINE.spec_bytes());
    lemma_prefix_is_stable(a, b, p, SCORE_LINE.spec_bytes());
}

/// Answers in front of answers in front of `d`.
pub proof fn lemma_replies_compose(
    r1: Seq<u8>,
    b1: Seq<Seq<u8>>,
    r2: Seq<u8>,
    b2: Seq<Seq<u8>>,
    d: Drained,
)
    ensures
        after_reply(r1, b1, after_reply(r2, b2, d)) == after_reply(r1 + r2, b1 + b2, d),
{
    assert(r1 + (r2 + d.replies) =~= (r1 + r2) + d.replies);
    assert(b1 + (b2 + d.bodies) =~= (b1 + b2) + d.bodies);
}

/// What comes first when a readiness probe is pending.
pub proof fn lemma_drain_ready(p: Seq<u8>, answers: Seq<Option<usize>>, consumed: int)
    requires
        request_of(window(p)) == (Request::Ready { consumed }),
    ensures
        drain(p, answers) == after_reply(
            RESP_READY.spec_bytes(),
            Seq::empty(),
            drain(p.skip(consumed), answers),
        ),
{
}

/// What comes first when a request for a score is pending.
pub proof fn lemma_drain_fraud(
    p: Seq<u8>,
    answers: Seq<Option<usize>>,
    body_start: int,
    body_end: int,
    consumed: int,
)
    requires
        request_of(window(p)) == (Request::Fraud { body_start, body_end, consumed }),
    ensures
        drain(p, answers) == after_reply(
            score_answer(answers.first()),
            seq![p.subrange(body_start, body_end)],
            drain(p.skip(consumed), answers.drop_first()),
        ),
{
}

/// What a buffer asks for, a stream that begins with it asks for.
pub proof fn lemma_window_request(p: Seq<u8>, x: Seq<u8>)
    requires
        p.len() <= RX_CAP,
        !is_undecided(p),
    ensures
        request_of(window(p + x)) == request_of(p),
{
    let w = window(p + x);
    let y = w.skip(p.len() as int);
    assert(w =~= p + y);
    law_requests_stay_as_they_are(p, y);
}

/// Answering `a` and then what is left of it together with `b` is answering everything at once.
pub open spec fn joins(a: Seq<u8>, b: Seq<u8>, answers: Seq<Option<usize>>) -> bool {
    let first = drain(a, answers);
    drain(a + b, answers) == if first.close {
        Drained { rest: first.rest + b, ..first }
    } else {
        after_reply(
            first.replies,
            first.bodies,
            drain(first.rest + b, answers.skip(first.bodies.len() as int)),
        )
    }
}

/// A readiness probe in front keeps the parts joined.
proof fn lemma_join_ready(a: Seq<u8>, b: Seq<u8>, answers: Seq<Option<usize>>, consumed: int)
    requires
        a.len() <= RX_CAP,
        request_of(a) == (Request::Ready { consumed }),
        4 <= consumed <= a.len(),
        joins(a.skip(consumed), b, answers),
    ensures
        joins(a, b, answers),
{
    lemma_window_request(a, b);
    lemma_drain_ready(a, answers, consumed);
    lemma_drain_ready(a + b, answers, consumed);
    assert((a + b).skip(consumed) =~= a.skip(consumed) + b);
    let rest = drain(a.skip(consumed), answers);
    assert(Seq::<Seq<u8>>::empty() + rest.bodies =~= rest.bodies);
    lemma_replies_compose(
        RESP_READY.spec_bytes(),
        Seq::empty(),
        rest.replies,
        rest.bodies,
        drain(rest.rest + b, answers.skip(rest.bodies.len() as int)),
    );
}

/// A request for a score in front keeps the parts joined.
proof fn lemma_join_fraud(
    a: Seq<u8>,
    b: Seq<u8>,
    answers: Seq<Option<usize>>,
    body_start: int,
    body_end: int,
    consumed: int,
)
    requires
        a.len() <= RX_CAP,
        request_of(a) == (Request::Fraud { body_start, body_end, consumed }),
        4 <= body_start <= body_end == consumed <= a.len(),
        drain(a, answers).bodies.len() <= answers.len(),
        joins(a.skip(consumed), b, answers.drop_first()),
    ensures
        joins(a, b, answers),
{
    lemma_window_request(a, b);
    lemma_drain_fraud(a, answers, body_start, body_end, consumed);
    lemma_drain_fraud(a + b, answers, body_start, body_end, consumed);
    assert((a + b).skip(consumed) =~= a.skip(consumed) + b);
    assert((a + b).subrange(body_start, body_end) =~= a.subrange(body_start, body_end));
    let others = answers.drop_first();
    let rest = drain(a.skip(consumed), others);
    assert(others.skip(rest.bodies.len() as int) =~= answers.skip(
        drain(a, answers).bodies.len() as int,
    ));
    lemma_replies_compose(
        score_answer(answers.first()),
        seq![a.subrange(body_start, body_end)],
        rest.replies,
        rest.bodies,
        drain(rest.rest + b, others.skip(rest.bodies.len() as int)),
    );
}

/// It does not matter how the bytes of requests are split on their way: answering what came
/// first, and then what is left of it together with what came later, asks for the same scores and
/// sends the same bytes as answering everything at once. What is left is a request that is not
/// complete.
pub proof fn law_arrival_does_not_matter(a: Seq<u8>, b: Seq<u8>, answers: Seq<Option<usize>>)
    requires
        a.len() <= RX_CAP,
        drain(a, answers).bodies.len() <= answers.len(),
    ensures
        joins(a, b, answers),
        !drain(a, answers).close ==> is_undecided(drain(a, answers).rest),
        drain(a, answers).rest.len() <= a.len(),
    decreases a.len(),
{
    law_requests_make_progress(a);
    match request_of(a) {
        Request::Incomplete | Request::NeedBody => {
            let d = drain(a + b, answers);
            assert(answers.skip(0) =~= answers);
            assert(Seq::<u8>::empty() + d.replies =~= d.replies);
            assert(Seq::<Seq<u8>>::empty() + d.bodies =~= d.bodies);
        },
        Request::Ready { consumed } => {
            lemma_drain_ready(a, answers, consumed);
            law_arrival_does_not_matter(a.skip(consumed), b, answers);
            lemma_join_ready(a, b, answers, consumed);
        },
        Request::Fraud { body_start, body_end, consumed } => {
            lemma_drain_fraud(a, answers, body_start, body_end, consumed);
            law_arrival_does_not_matter(a.skip(consumed), b, answers.drop_first());
            lemma_join_fraud(a, b, answers, body_start, body_end, consumed);
        },
        Request::Bad => {
            lemma_window_request(a, b);
        },
        Request::NotFound { consumed } => {
            lemma_window_request(a, b);
            assert((a + b).skip(consumed) =~= a.skip(consumed) + b);
        },
    }
}

/// Answers that nothing asks for change nothing.
pub proof fn law_only_asked_scores_count(
    p: Seq<u8>,
    answers: Seq<Option<usize>>,
    more: Seq<Option<usize>>,
)
    requires
        drain(p, answers).bodies.len() <= answers.len(),
    ensures
        drain(p, answers + more) == drain(p, answers),
    decreases p.len(),
{
    law_requests_make_progress(window(p));
    match request_of(window(p)) {
        Request::Ready { consumed } => {
            lemma_drain_ready(p, answers, consumed);
            lemma_drain_ready(p, answers + more, consumed);
            law_only_asked_scores_count(p.skip(consumed), answers, more);
        },
        Request::Fraud { body_start, body_end, consumed } => {
            lemma_drain_fraud(p, answers, body_start, body_end, consumed);
            lemma_drain_fraud(p, answers + more, body_start, body_end, consumed);
            assert((answers + more).drop_first() =~= answers.drop_first() + more);
            assert((answers + more).first() == answers.first());
            law_only_asked_scores_count(p.skip(consumed), answers.drop_first(), more);
        },
        _ => {},
    }
}

} // verus!
