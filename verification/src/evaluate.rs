//! Checking answers: brute force over the references, and a tally of where answers agree.

use vstd::prelude::*;
use crate::ivf::{
    distance,
    distance_sq,
    is_borderline,
    offer_all,
    slot_labels,
    vacant_slots,
    Neighbor,
    Top5,
    DIM,
};
use crate::scan::same_text;

verus! {

/// The label of a reference: 1 for fraud, 0 for anything else.
pub open spec fn code_of(label: Seq<char>) -> u8 {
    if label == "fraud"@ {
        1
    } else {
        0
    }
}

/// The label of a reference.
pub fn label_code(label: &str) -> (code: u8)
    ensures
        code == code_of(label@),
{
    if same_text(label, "fraud") {
        1
    } else {
        0
    }
}

/// Reference `i` as seen from `q`.
pub open spec fn reference_neighbor(
    q: Seq<i16>,
    refs: Seq<[i16; DIM]>,
    labels: Seq<u8>,
    i: int,
) -> Neighbor {
    Neighbor { dist: distance(q, refs[i]@) as u64, label: labels[i], id: i as u32 }
}

/// The references as seen from `q`, in their order.
pub open spec fn reference_neighbors(
    q: Seq<i16>,
    refs: Seq<[i16; DIM]>,
    labels: Seq<u8>,
) -> Seq<Neighbor> {
    Seq::new(refs.len(), |i: int| reference_neighbor(q, refs, labels, i))
}

/// One reference as seen from a query.
pub fn candidate(q: &[i16; DIM], refs: &[[i16; DIM]], labels: &[u8], i: usize) -> (n: Neighbor)
    requires
        i < refs@.len(),
        i < labels@.len(),
    ensures
        n == reference_neighbor(q@, refs@, labels@, i as int),
{
    Neighbor {
        dist: distance_sq(q, &refs[i]),
        label: labels[i],
        id: #[verifier::truncate]
        (i as u32),
    }
}

/// The labels of the closest candidates.
pub fn select_top5(cands: &[Neighbor]) -> (labels: [u8; 5])
    ensures
        labels@ == slot_labels(offer_all(vacant_slots(), cands@)),
{
    let mut top = Top5::new();
    let mut i: usize = 0;
    assert(cands@.take(0) =~= Seq::empty());
    while i < cands.len()
        invariant
            i <= cands@.len(),
            top.wf(),
            top@ == offer_all(vacant_slots(), cands@.take(i as int)),
        decreases cands@.len() - i,
    {
        let c: Neighbor = cands[i];
        top.try_insert(c.dist, c.label, c.id);
        assert(cands@.take(i + 1).drop_last() =~= cands@.take(i as int));
        i += 1;
    }
    assert(cands@.take(i as int) =~= cands@);
    top.labels()
}

/// Compares the query with every reference.
pub fn brute_force_top5(q: &[i16; DIM], refs: &[[i16; DIM]], labels: &[u8]) -> (out: [u8; 5])
    requires
        refs@.len() <= labels@.len(),
    ensures
        out@ == slot_labels(offer_all(vacant_slots(), reference_neighbors(q@, refs@, labels@))),
{
    let mut cands: Vec<Neighbor> = Vec::with_capacity(refs.len());
    let mut i: usize = 0;
    while i < refs.len()
        invariant
            i <= refs@.len() <= labels@.len(),
            cands@ == reference_neighbors(q@, refs@, labels@).take(i as int),
        decreases refs@.len() - i,
    {
        cands.push(candidate(q, refs, labels, i));
        i += 1;
        assert(cands@ =~= reference_neighbors(q@, refs@, labels@).take(i as int));
    }
    assert(cands@ =~= reference_neighbors(q@, refs@, labels@));
    select_top5(cands.as_slice())
}

/// A transaction is approved when its score, the share of frauds among five, is below 0.6.
pub open spec fn approves(frauds: int) -> bool {
    10 * frauds < 6 * 5
}

/// Decides on a transaction.
pub fn is_approved(frauds: usize) -> (approved: bool)
    ensures
        approved == approves(frauds as int),
{
    frauds < 3
}

/// An answer is borderline exactly where one fraud more or less turns the decision around.
pub proof fn law_borderline_is_next_to_the_decision(frauds: int)
    ensures
        is_borderline(frauds) <==> (approves(frauds) != approves(frauds + 1) || approves(frauds)
            != approves(frauds - 1)),
{
}

/// How often answers agree.
#[derive(Clone, Copy)]
pub struct Tally {
    /// Queries.
    pub queries: usize,
    /// Searches that decided as expected.
    pub ivf_correct: usize,
    /// Brute-force searches that decided as expected.
    pub brute_correct: usize,
    /// Queries for which both found as many frauds.
    pub top5_match: usize,
    /// Queries on which both decided the same.
    pub decision_match: usize,
}

/// One more than `n`, if `b`.
pub open spec fn plus_if(n: usize, b: bool) -> int {
    if b {
        n + 1
    } else {
        n as int
    }
}

impl Tally {
    /// Nothing is counted more often than there are queries, and equal numbers of frauds make
    /// equal decisions.
    pub open spec fn wf(&self) -> bool {
        &&& self.ivf_correct <= self.queries
        &&& self.brute_correct <= self.queries
        &&& self.top5_match <= self.decision_match <= self.queries
    }

    /// A tally of no queries.
    pub fn new() -> (t: Tally)
        ensures
            t.wf(),
            t == (Tally {
                queries: 0,
                ivf_correct: 0,
                brute_correct: 0,
                top5_match: 0,
                decision_match: 0,
            }),
    {
        Tally { queries: 0, ivf_correct: 0, brute_correct: 0, top5_match: 0, decision_match: 0 }
    }

    /// Counts one query.
    pub fn record(&mut self, ivf_frauds: usize, brute_frauds: usize, expected_approved: bool)
        requires
            old(self).wf(),
            old(self).queries < usize::MAX,
        ensures
            final(self).wf(),
            final(self).queries == old(self).queries + 1,
            final(self).ivf_correct == plus_if(
                old(self).ivf_correct,
                approves(ivf_frauds as int) == expected_approved,
            ),
            final(self).brute_correct == plus_if(
                old(self).brute_correct,
                approves(brute_frauds as int) == expected_approved,
            ),
            final(self).top5_match == plus_if(old(self).top5_match, ivf_frauds == brute_frauds),
            final(self).decision_match == plus_if(
                old(self).decision_match,
                approves(ivf_frauds as int) == approves(brute_frauds as int),
            ),
    {
        let ivf_approved: bool = is_approved(ivf_frauds);
        let brute_approved: bool = is_approved(brute_frauds);
        self.queries += 1;
        if ivf_approved == expected_approved {
            self.ivf_correct += 1;
        }
        if brute_approved == expected_approved {
            self.brute_correct += 1;
        }
        if ivf_frauds == brute_frauds {
            self.top5_match += 1;
        }
        if ivf_approved == brute_approved {
            self.decision_match += 1;
        }
    }
}

/// Only the label `fraud` has the code 1, and every other label has the code 0.
pub proof fn law_label_codes(label: Seq<char>)
    ensures
        code_of(label) == 1 <==> label == "fraud"@,
        code_of(label) == 0 <==> label != "fraud"@,
{
}

/// A transaction is approved if and only if fewer than three fifths of the closest are frauds.
pub proof fn law_approval(frauds: int)
    ensures
        approves(frauds) <==> 5 * frauds < 3 * 5,
        approves(frauds + 1) ==> approves(frauds),
{
}

/// A count goes up by one if there is something to count, and stays otherwise.
pub proof fn law_counts_go_up_by_one(n: usize, b: bool)
    ensures
        b ==> plus_if(n, b) - n == 1,
        !b ==> plus_if(n, b) == n,
{
}

} // verus!
