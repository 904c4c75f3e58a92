//! What a client is sent over a whole connection, however its bytes arrive.

use vstd::prelude::*;
use vstd::string::StringSliceAdditionalSpecFns;
use crate::scan::{occurs_at, occurs_first_at};
use crate::server::{
    blank_line,
    drain,
    head_end,
    is_undecided,
    law_arrival_does_not_matter,
    law_only_asked_scores_count,
    may_score_all,
    stays_countable,
    stays_in_range,
    window,
    Connection,
    RESP_400,
    RX_CAP,
};

verus! {

/// What passes over a connection.
pub struct Exchange {
    /// Bytes sent to the client.
    pub sent: Seq<u8>,
    /// Bodies that scores were asked for.
    pub bodies: Seq<Seq<u8>>,
}

/// Bytes and bodies in front of an exchange.
pub open spec fn preceded(sent: Seq<u8>, bodies: Seq<Seq<u8>>, e: Exchange) -> Exchange {
    Exchange { sent: sent + e.sent, bodies: bodies + e.bodies }
}

/// What a client that sends `stream` is sent, where `answers` are the scores of the bodies in
/// turn: one answer per request, in order, up to and with the first that closes the connection.
/// A request that does not fit into the buffer is refused.
pub open spec fn transcript(stream: Seq<u8>, answers: Seq<Option<usize>>) -> Exchange {
    let d = drain(stream, answers);
    Exchange {
        sent: d.replies + if !d.close && d.rest.len() >= RX_CAP {
            RESP_400.spec_bytes()
        } else {
            Seq::empty()
        },
        bodies: d.bodies,
    }
}

/// What a connection that holds `pending` sends while `chunks` arrive one by one. A full
/// connection refuses; after each chunk the requests that are complete are answered; an answer
/// that closes ends it.
pub open spec fn session(
    pending: Seq<u8>,
    chunks: Seq<Seq<u8>>,
    answers: Seq<Option<usize>>,
) -> Exchange
    decreases chunks.len(),
{
    if pending.len() >= RX_CAP {
        Exchange { sent: RESP_400.spec_bytes(), bodies: Seq::empty() }
    } else if chunks.len() == 0 {
        Exchange { sent: Seq::empty(), bodies: Seq::empty() }
    } else {
        let d = drain(pending + chunks[0], answers);
        if d.close {
            Exchange { sent: d.replies, bodies: d.bodies }
        } else {
            preceded(
                d.replies,
                d.bodies,
                session(d.rest, chunks.drop_first(), answers.skip(d.bodies.len() as int)),
            )
        }
    }
}

/// Every chunk that is read fits into the room that is left.
pub open spec fn chunks_fit(
    pending: Seq<u8>,
    chunks: Seq<Seq<u8>>,
    answers: Seq<Option<usize>>,
) -> bool
    decreases chunks.len(),
{
    if pending.len() >= RX_CAP || chunks.len() == 0 {
        true
    } else {
        let d = drain(pending + chunks[0], answers);
        &&& pending.len() + chunks[0].len() <= RX_CAP
        &&& d.close || chunks_fit(
            d.rest,
            chunks.drop_first(),
            answers.skip(d.bodies.len() as int),
        )
    }
}

/// What a connection sends is a function of the bytes that arrive alone: over any number of reads
/// of any size that fits, it is the transcript of all of them in a row.
pub proof fn law_session_is_transcript(
    pending: Seq<u8>,
    chunks: Seq<Seq<u8>>,
    answers: Seq<Option<usize>>,
)
    requires
        pending.len() <= RX_CAP,
        is_undecided(pending),
        chunks_fit(pending, chunks, answers),
        session(pending, chunks, answers).bodies.len() <= answers.len(),
    ensures
        session(pending, chunks, answers) == transcript(pending + chunks.flatten(), answers),
    decreases chunks.len(),
{
    let all = chunks.flatten();
    let none = Seq::<u8>::empty();
    if pending.len() == RX_CAP {
        assert(window(pending + all) =~= pending);
        assert(none + RESP_400.spec_bytes() =~= RESP_400.spec_bytes());
    } else if chunks.len() == 0 {
        assert(pending + all =~= pending);
        assert(none + none =~= none);
    } else {
        let p = pending + chunks[0];
        let others = chunks.drop_first();
        let x = others.flatten();
        let d = drain(p, answers);
        assert(chunks.first() == chunks[0]);
        assert(pending + all =~= p + x);
        law_arrival_does_not_matter(p, x, answers);
        if d.close {
            assert(d.replies + none =~= d.replies);
        } else {
            let later = answers.skip(d.bodies.len() as int);
            law_session_is_transcript(d.rest, others, later);
            let e = drain(d.rest + x, later);
            let refusal = RESP_400.spec_bytes();
            assert((d.replies + e.replies) + refusal =~= d.replies + (e.replies + refusal));
            assert((d.replies + e.replies) + none =~= d.replies + (e.replies + none));
        }
    }
}

/// No bytes ask for nothing.
proof fn lemma_nothing_is_undecided()
    ensures
        is_undecided(Seq::empty()),
{
    let none = Seq::<u8>::empty();
    if head_end(none) is Some {
        let p = choose|p: int| occurs_first_at(none, blank_line(), p);
        assert(occurs_at(none, blank_line(), p));
    }
}

/// However the same bytes are split into reads, a new connection asks for the same scores and
/// sends the same bytes, up to and with the first answer that closes it.
pub proof fn law_splits_do_not_matter(
    a: Seq<Seq<u8>>,
    b: Seq<Seq<u8>>,
    answers: Seq<Option<usize>>,
)
    requires
        a.flatten() == b.flatten(),
        chunks_fit(Seq::empty(), a, answers),
        chunks_fit(Seq::empty(), b, answers),
        session(Seq::empty(), a, answers).bodies.len() <= answers.len(),
        session(Seq::empty(), b, answers).bodies.len() <= answers.len(),
    ensures
        session(Seq::empty(), a, answers) == session(Seq::empty(), b, answers),
{
    lemma_nothing_is_undecided();
    law_session_is_transcript(Seq::empty(), a, answers);
    law_session_is_transcript(Seq::empty(), b, answers);
}

/// What was sent and asked for comes first, and then a session that holds `pending`, unless the
/// connection is closed.
pub open spec fn followed(
    sent: Seq<u8>,
    bodies: Seq<Seq<u8>>,
    closing: bool,
    pending: Seq<u8>,
    rest: Seq<Seq<u8>>,
    more: Seq<Option<usize>>,
) -> Exchange {
    if closing {
        Exchange { sent, bodies }
    } else {
        preceded(sent, bodies, session(pending, rest, more))
    }
}

/// Whatever arrives later, a session of a connection that held `before` and took in `chunk` is what
/// it sent for that, followed by a session of what it holds now.
pub open spec fn is_step(
    before: Seq<u8>,
    chunk: Seq<u8>,
    answers: Seq<Option<usize>>,
    sent: Seq<u8>,
    bodies: Seq<Seq<u8>>,
    closing: bool,
    after: Seq<u8>,
) -> bool {
    forall|rest: Seq<Seq<u8>>, more: Seq<Option<usize>>| #[trigger]
        session(before, seq![chunk] + rest, answers + more) == followed(
            sent,
            bodies,
            closing,
            after,
            rest,
            more,
        )
}

/// Receiving a chunk and answering what is complete is one step of a session.
pub proof fn law_turn_is_a_step(before: Seq<u8>, chunk: Seq<u8>, answers: Seq<Option<usize>>)
    requires
        before.len() < RX_CAP,
        drain(before + chunk, answers).bodies.len() == answers.len(),
    ensures
        ({
            let d = drain(before + chunk, answers);
            is_step(before, chunk, answers, d.replies, d.bodies, d.close, d.rest)
        }),
{
    let d = drain(before + chunk, answers);
    assert forall|rest: Seq<Seq<u8>>, more: Seq<Option<usize>>| #[trigger]
        session(before, seq![chunk] + rest, answers + more) == followed(
            d.replies,
            d.bodies,
            d.close,
            d.rest,
            rest,
            more,
        ) by {
        let chunks = seq![chunk] + rest;
        law_only_asked_scores_count(before + chunk, answers, more);
        assert(chunks[0] == chunk);
        assert(chunks.drop_first() =~= rest);
        assert((answers + more).skip(answers.len() as int) =~= more);
    }
}

/// Refusing a full connection is the last step of a session.
pub proof fn law_refusal_ends_a_session(
    pending: Seq<u8>,
    chunks: Seq<Seq<u8>>,
    answers: Seq<Option<usize>>,
)
    requires
        pending.len() >= RX_CAP,
    ensures
        session(pending, chunks, answers) == (Exchange {
            sent: RESP_400.spec_bytes(),
            bodies: Seq::empty(),
        }),
{
}

impl Connection {
    /// Takes in a chunk of bytes that came from the client and answers the requests that are
    /// complete, scoring bodies with `score`: one step of a session. Returns `false`, with nothing
    /// answered, where a request announces a length that cannot be counted with.
    pub fn turn<F: Fn(&[u8]) -> Option<usize>>(&mut self, chunk: &[u8], score: &F) -> (ok: bool)
        requires
            old(self).wf(),
            old(self).pending().len() < RX_CAP,
            old(self).pending().len() + chunk@.len() <= RX_CAP,
            forall|b: &[u8]| #[trigger] call_requires(*score, (b,)),
        ensures
            final(self).wf(),
            ok == stays_countable(old(self).pending() + chunk@),
            !ok ==> {
                &&& final(self).pending() == old(self).pending() + chunk@
                &&& final(self).outgoing() == Seq::<u8>::empty()
                &&& !final(self).closing()
            },
            ok ==> exists|answers: Seq<Option<usize>>|
                {
                    let d = #[trigger] drain(old(self).pending() + chunk@, answers);
                    &&& may_score_all(*score, d.bodies, answers)
                    &&& final(self).pending() == d.rest
                    &&& final(self).outgoing() == d.replies
                    &&& final(self).closing() == d.close
                    &&& is_step(
                        old(self).pending(),
                        chunk@,
                        answers,
                        final(self).outgoing(),
                        d.bodies,
                        final(self).closing(),
                        final(self).pending(),
                    )
                },
    {
        let ghost before = self.pending();
        self.receive(chunk);
        if !stays_in_range(self.received()) {
            return false;
        }
        self.serve(score);
        proof {
            let all = before + chunk@;
            let answers = choose|answers: Seq<Option<usize>>|
                {
                    let d = #[trigger] drain(all, answers);
                    &&& may_score_all(*score, d.bodies, answers)
                    &&& self.pending() == d.rest
                    &&& self.outgoing() == Seq::<u8>::empty() + d.replies
                    &&& self.closing() == (false || d.close)
                };
            let d = drain(all, answers);
            assert(Seq::<u8>::empty() + d.replies =~= d.replies);
            law_turn_is_a_step(before, chunk@, answers);
        }
        true
    }
}

} // verus!
