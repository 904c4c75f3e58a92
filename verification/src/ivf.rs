//! Nearest-neighbour search: the five-slot result set, distances and scans.

use vstd::prelude::*;
use crate::index::{cell, vector_at, Dataset};
use crate::ranking::{is_ranking, rank_centroids};
use crate::recall::{
    box_holds,
    boxes_enclose,
    clamped,
    is_proper_box,
    is_separable,
    law_box_distance_is_a_lower_bound,
    law_box_distance_is_reached,
    law_box_distance_is_zero_inside,
    law_search_agrees_with_brute_force,
};

verus! {

/// Number of clusters in an index.
pub const K: usize = 1024;

/// Clusters that every query scans.
pub const NPROBE_PRIMARY: usize = 4;

/// Clusters that a query scans when the first answer is close to the decision boundary.
pub const NPROBE_REFINE: usize = 24;

/// Vectors per storage block.
pub const BLOCK_SIZE: usize = 16;

/// Components of a feature vector.
pub const DIM: usize = 14;

/// A component of 1.0 is stored as this integer.
pub const QUANT_SCALE: u32 = 10_000;

/// Slots of a result set.
pub const SLOTS: usize = 5;

/// A reference vector as seen from a query.
#[derive(Clone, Copy)]
pub struct Neighbor {
    /// Squared distance to the query.
    pub dist: u64,
    /// 1 for fraud, 0 otherwise.
    pub label: u8,
    /// Position of the vector among the references.
    pub id: u32,
}

/// What an unused slot holds.
pub open spec fn vacant() -> Neighbor {
    Neighbor { dist: u64::MAX, label: 0, id: u32::MAX }
}

/// A result set to which nothing was offered.
pub open spec fn vacant_slots() -> Seq<Neighbor> {
    Seq::new(SLOTS as nat, |i: int| vacant())
}

/// `w` is the first slot that holds the greatest distance.
pub open spec fn is_worst_slot(slots: Seq<Neighbor>, w: int) -> bool {
    &&& 0 <= w < slots.len()
    &&& forall|i: int| 0 <= i < slots.len() ==> (#[trigger] slots[i]).dist <= slots[w].dist
    &&& forall|i: int| 0 <= i < w ==> (#[trigger] slots[i]).dist < slots[w].dist
}

/// The first slot that holds the greatest distance.
pub open spec fn worst_slot(slots: Seq<Neighbor>) -> int {
    choose|w: int| is_worst_slot(slots, w)
}

/// The greatest distance held.
pub open spec fn worst_dist(slots: Seq<Neighbor>) -> u64 {
    slots[worst_slot(slots)].dist
}

/// The slots after `n` was offered: a strictly closer neighbour takes the worst slot.
pub open spec fn offer(slots: Seq<Neighbor>, n: Neighbor) -> Seq<Neighbor> {
    if n.dist < worst_dist(slots) {
        slots.update(worst_slot(slots), n)
    } else {
        slots
    }
}

/// The slots after each of `ns` was offered, in order.
pub open spec fn offer_all(slots: Seq<Neighbor>, ns: Seq<Neighbor>) -> Seq<Neighbor>
    decreases ns.len(),
{
    if ns.len() == 0 {
        slots
    } else {
        offer(offer_all(slots, ns.drop_last()), ns.last())
    }
}

/// The labels of the slots, slot by slot.
pub open spec fn slot_labels(slots: Seq<Neighbor>) -> Seq<u8> {
    Seq::new(slots.len(), |i: int| slots[i].label)
}

/// A non-empty sequence of slots has exactly one worst slot.
pub proof fn lemma_worst_slot(slots: Seq<Neighbor>)
    requires
        slots.len() > 0,
    ensures
        is_worst_slot(slots, worst_slot(slots)),
        forall|w: int| is_worst_slot(slots, w) ==> w == worst_slot(slots),
    decreases slots.len(),
{
    if slots.len() == 1 {
        assert(is_worst_slot(slots, 0));
    } else {
        let front = slots.drop_last();
        lemma_worst_slot(front);
        let w = worst_slot(front);
        let last = slots.len() - 1;
        assert(front[w] == slots[w]);
        assert(forall|i: int| 0 <= i < last ==> front[i] == slots[i]);
        if slots[last].dist > slots[w].dist {
            assert(is_worst_slot(slots, last as int));
        } else {
            assert(is_worst_slot(slots, w));
        }
    }
    assert forall|w: int| is_worst_slot(slots, w) implies w == worst_slot(slots) by {
        let v = worst_slot(slots);
        assert(slots[v].dist <= slots[w].dist);
        assert(slots[w].dist <= slots[v].dist);
    }
}

/// Offering one sequence after another is offering their concatenation.
pub proof fn lemma_offer_all_concat(slots: Seq<Neighbor>, a: Seq<Neighbor>, b: Seq<Neighbor>)
    ensures
        offer_all(slots, a + b) == offer_all(offer_all(slots, a), b),
    decreases b.len(),
{
    if b.len() == 0 {
        assert(a + b == a);
    } else {
        lemma_offer_all_concat(slots, a, b.drop_last());
        assert((a + b).drop_last() == a + b.drop_last());
    }
}

/// Offering keeps the number of slots.
pub proof fn lemma_offer_all_len(slots: Seq<Neighbor>, ns: Seq<Neighbor>)
    requires
        slots.len() > 0,
    ensures
        offer_all(slots, ns).len() == slots.len(),
    decreases ns.len(),
{
    if ns.len() > 0 {
        lemma_offer_all_len(slots, ns.drop_last());
        lemma_worst_slot(offer_all(slots, ns.drop_last()));
    }
}

/// The five closest neighbours offered so far.
pub struct Top5 {
    dist: [u64; 5],
    label: [u8; 5],
    id: [u32; 5],
    worst_pos: usize,
}

impl View for Top5 {
    type V = Seq<Neighbor>;

    closed spec fn view(&self) -> Seq<Neighbor> {
        Seq::new(
            SLOTS as nat,
            |i: int| Neighbor { dist: self.dist@[i], label: self.label@[i], id: self.id@[i] },
        )
    }
}

impl Top5 {
    /// The cached position is that of the worst slot.
    pub closed spec fn wf(&self) -> bool {
        is_worst_slot(self@, self.worst_pos as int)
    }

    /// A well-formed result set has five slots, and one of them is the worst.
    pub proof fn law_five_slots(&self)
        requires
            self.wf(),
        ensures
            self@.len() == SLOTS,
            is_worst_slot(self@, worst_slot(self@)),
    {
        lemma_worst_slot(self@);
    }

    /// A result set with every slot vacant.
    pub fn new() -> (top: Self)
        ensures
            top.wf(),
            top@ == vacant_slots(),
    {
        let top = Self {
            dist: [u64::MAX; 5],
            label: [0u8; 5],
            id: [u32::MAX; 5],
            worst_pos: 0,
        };
        assert(top@ =~= vacant_slots());
        top
    }

    /// The greatest distance held: an offer has to beat it.
    pub fn worst(&self) -> (d: u64)
        requires
            self.wf(),
        ensures
            d == worst_dist(self@),
            self@.len() == SLOTS,
            forall|i: int| 0 <= i < SLOTS ==> (#[trigger] self@[i]).dist <= d,
            exists|i: int| 0 <= i < SLOTS && (#[trigger] self@[i]).dist == d,
    {
        proof {
            lemma_worst_slot(self@);
            assert(self@[self.worst_pos as int].dist == self.dist@[self.worst_pos as int]);
        }
        self.dist[self.worst_pos]
    }

    /// Offers a neighbour: it replaces the worst one held if it is strictly closer.
    pub fn try_insert(&mut self, d: u64, lbl: u8, id: u32)
        requires
            old(self).wf(),
        ensures
            final(self).wf(),
            final(self)@ == offer(old(self)@, Neighbor { dist: d, label: lbl, id }),
    {
        proof {
            lemma_worst_slot(self@);
        }
        let ghost before = self@;
        if d >= self.dist[self.worst_pos] {
            return;
        }
        self.dist[self.worst_pos] = d;
        self.label[self.worst_pos] = lbl;
        self.id[self.worst_pos] = id;
        assert(self@ =~= before.update(
            self.worst_pos as int,
            Neighbor { dist: d, label: lbl, id },
        ));
        let mut wp: usize = 0;
        let mut i: usize = 1;
        while i < SLOTS
            invariant
                1 <= i <= SLOTS,
                wp < i,
                forall|j: int| 0 <= j < i ==> (#[trigger] self@[j]).dist <= self@[wp as int].dist,
                forall|j: int| 0 <= j < wp ==> (#[trigger] self@[j]).dist < self@[wp as int].dist,
            decreases SLOTS - i,
        {
            assert(self@[i as int].dist == self.dist@[i as int]);
            assert(self@[wp as int].dist == self.dist@[wp as int]);
            if self.dist[i] > self.dist[wp] {
                wp = i;
            }
            i += 1;
        }
        let ghost filled = self@;
        self.worst_pos = wp;
        assert(self@ =~= filled);
    }

    /// The labels held, slot by slot; a vacant slot counts as label 0.
    pub fn labels(&self) -> (l: [u8; 5])
        ensures
            l@ == slot_labels(self@),
    {
        assert(self.label@ =~= slot_labels(self@));
        self.label
    }
}

/// Sum of the squared differences of the first `n` components.
pub open spec fn distance_upto(a: Seq<i16>, b: Seq<i16>, n: nat) -> int
    decreases n,
{
    if n == 0 {
        0
    } else {
        distance_upto(a, b, (n - 1) as nat) + (a[n - 1] - b[n - 1]) * (a[n - 1] - b[n - 1])
    }
}

/// Squared Euclidean distance of two vectors.
pub open spec fn distance(a: Seq<i16>, b: Seq<i16>) -> int {
    distance_upto(a, b, DIM as nat)
}

/// The square of a component difference.
proof fn lemma_square_bound(d: int)
    requires
        -65535 <= d <= 65535,
    ensures
        0 <= d * d <= 4294836225,
{
    assert(0 <= d * d <= 4294836225) by (nonlinear_arith)
        requires
            -65535 <= d <= 65535,
    ;
}

/// A distance fits in 64 bits.
pub proof fn lemma_distance_bound(a: Seq<i16>, b: Seq<i16>, n: nat)
    ensures
        0 <= distance_upto(a, b, n) <= n * 4294836225,
    decreases n,
{
    if n > 0 {
        lemma_distance_bound(a, b, (n - 1) as nat);
        lemma_square_bound(a[n - 1] - b[n - 1]);
    }
}

/// Squared Euclidean distance of two vectors.
pub fn distance_sq(a: &[i16; DIM], b: &[i16; DIM]) -> (sum: u64)
    ensures
        sum == distance(a@, b@),
{
    let mut sum: i64 = 0;
    let mut i: usize = 0;
    while i < DIM
        invariant
            i <= DIM,
            sum == distance_upto(a@, b@, i as nat),
            0 <= sum <= i * 4294836225,
        decreases DIM - i,
    {
        let d: i64 = a[i] as i64 - b[i] as i64;
        proof {
            lemma_square_bound(d as int);
        }
        sum += d * d;
        i += 1;
    }
    sum as u64
}

/// Number of labels among the first `n` that mark fraud.
pub open spec fn frauds_upto(labels: Seq<u8>, n: nat) -> nat
    decreases n,
{
    if n == 0 {
        0
    } else {
        frauds_upto(labels, (n - 1) as nat) + if labels[n - 1] == 1 {
            1nat
        } else {
            0
        }
    }
}

/// Number of labels that mark fraud.
pub open spec fn frauds(labels: Seq<u8>) -> nat {
    frauds_upto(labels, labels.len())
}

/// Counts the labels that mark fraud.
pub fn count_frauds(labels: &[u8; 5]) -> (n: usize)
    ensures
        n == frauds(labels@),
        n <= 5,
{
    let mut n: usize = 0;
    let mut i: usize = 0;
    while i < SLOTS
        invariant
            i <= SLOTS,
            n <= i,
            n == frauds_upto(labels@, i as nat),
        decreases SLOTS - i,
    {
        if labels[i] == 1 {
            n += 1;
        }
        i += 1;
    }
    n
}

/// The vector at position `i` as seen from `q`, identified by its position.
pub open spec fn neighbor_by_position(q: Seq<i16>, ds: &Dataset, i: int) -> Neighbor {
    Neighbor {
        dist: distance(q, vector_at(ds.blocks@, i)) as u64,
        label: ds.labels@[i],
        id: i as u32,
    }
}

/// The first `n` stored vectors as seen from `q`, in order of position.
pub open spec fn stored_neighbors(q: Seq<i16>, ds: &Dataset, n: nat) -> Seq<Neighbor> {
    Seq::new(n, |i: int| neighbor_by_position(q, ds, i))
}

/// Compares the query with every stored vector.
pub fn search_top5_brute(q: &[i16; DIM], ds: &Dataset) -> (labels: [u8; 5])
    requires
        ds.wf(),
        ds.n_vectors <= ds.labels@.len(),
    ensures
        labels@ == slot_labels(
            offer_all(vacant_slots(), stored_neighbors(q@, ds, ds.n_vectors as nat)),
        ),
{
    let mut top = Top5::new();
    let n: usize = ds.n_vectors();
    let mut i: usize = 0;
    while i < n
        invariant
            i <= n,
            n == ds.n_vectors,
            ds.wf(),
            n <= ds.labels@.len(),
            top.wf(),
            top@ == offer_all(vacant_slots(), stored_neighbors(q@, ds, i as nat)),
        decreases n - i,
    {
        let v = ds.vector(i);
        let d: u64 = distance_sq(q, &v);
        top.try_insert(
            d,
            ds.label(i),
            #[verifier::truncate]
            (i as u32),
        );
        assert(stored_neighbors(q@, ds, (i + 1) as nat).drop_last() =~= stored_neighbors(
            q@,
            ds,
            i as nat,
        ));
        i += 1;
    }
    top.labels()
}

/// The vector at position `g` as seen from `q`, identified by its place among the references.
pub open spec fn neighbor_at(q: Seq<i16>, ds: &Dataset, g: int) -> Neighbor {
    Neighbor {
        dist: distance(q, vector_at(ds.blocks@, g)) as u64,
        label: ds.labels@[g],
        id: ds.orig_ids@[g],
    }
}

/// The vectors at the positions from `a` up to `b`, as seen from `q`.
pub open spec fn span(q: Seq<i16>, ds: &Dataset, a: int, b: int) -> Seq<Neighbor> {
    Seq::new(
        if a < b {
            (b - a) as nat
        } else {
            0
        },
        |j: int| neighbor_at(q, ds, a + j),
    )
}

/// The vectors of cluster `c`, as seen from `q`.
pub open spec fn cluster_span(q: Seq<i16>, ds: &Dataset, c: int) -> Seq<Neighbor> {
    span(q, ds, ds.offsets@[c] as int, ds.offsets@[c + 1] as int)
}

/// Extends a span by one position.
proof fn lemma_span_step(slots: Seq<Neighbor>, q: Seq<i16>, ds: &Dataset, a: int, g: int)
    requires
        a <= g,
    ensures
        offer_all(slots, span(q, ds, a, g + 1)) == offer(
            offer_all(slots, span(q, ds, a, g)),
            neighbor_at(q, ds, g),
        ),
{
    assert(span(q, ds, a, g + 1).drop_last() =~= span(q, ds, a, g));
    assert(span(q, ds, a, g + 1).last() == neighbor_at(q, ds, g));
}

/// Where a component of a lane of a block stands.
proof fn lemma_lane_cell(blk: int, lane: int, d: int)
    requires
        0 <= blk,
        0 <= lane < 16,
        0 <= d < 14,
    ensures
        cell(16 * blk + lane, d) == 224 * blk + 16 * d + lane,
        224 * blk + 16 * d + lane < 224 * (blk + 1),
{
    assert((16 * blk + lane) / 16 == blk);
    assert((16 * blk + lane) % 16 == lane);
}

/// The squared distance to the vector in a lane of a block.
#[verifier::spinoff_prover]
fn lane_distance(q: &[i16; DIM], ds: &Dataset, blk: usize, lane: usize) -> (s: u64)
    requires
        ds.wf(),
        blk < ds.n_blocks,
        lane < BLOCK_SIZE,
    ensures
        s == distance(q@, vector_at(ds.blocks@, 16 * blk + lane)),
{
    assert(ds.blocks.len() == ds.blocks@.len());
    let block_base: usize = blk * 224;
    let ghost v = vector_at(ds.blocks@, 16 * blk + lane);
    let mut s: i64 = 0;
    let mut d: usize = 0;
    while d < DIM
        invariant
            d <= DIM,
            lane < BLOCK_SIZE,
            blk < ds.n_blocks,
            ds.blocks@.len() == 224 * ds.n_blocks,
            ds.blocks@.len() <= usize::MAX,
            block_base == 224 * blk,
            v == vector_at(ds.blocks@, 16 * blk + lane),
            s == distance_upto(q@, v, d as nat),
            0 <= s <= d * 4294836225,
        decreases DIM - d,
    {
        proof {
            lemma_lane_cell(blk as int, lane as int, d as int);
            assert(v[d as int] == ds.blocks@[cell(16 * blk + lane, d as int)]);
        }
        let diff: i64 = q[d] as i64 - ds.blocks[block_base + d * 16 + lane] as i64;
        proof {
            lemma_square_bound(diff as int);
        }
        s += diff * diff;
        d += 1;
    }
    s as u64
}

/// Scans the lanes of one block that belong to a cluster.
#[verifier::spinoff_prover]
fn scan_block16_scalar(
    q: &[i16; DIM],
    ds: &Dataset,
    blk: usize,
    cluster_start: usize,
    cluster_end: usize,
    top: &mut Top5,
)
    requires
        ds.wf(),
        blk < ds.n_blocks,
        old(top).wf(),
    ensures
        final(top).wf(),
        final(top)@ == offer_all(
            old(top)@,
            span(
                q@,
                ds,
                if cluster_start < 16 * blk { 16 * blk as int } else { cluster_start as int },
                if cluster_end < 16 * blk + 16 { cluster_end as int } else { 16 * blk + 16 },
            ),
        ),
{
    assert(ds.labels.len() == ds.labels@.len());
    let lane_start: usize = blk * 16;
    let ghost before = top@;
    let ghost lo: int = if cluster_start < lane_start {
        lane_start as int
    } else {
        cluster_start as int
    };
    let mut lane: usize = 0;
    assert(span(q@, ds, lo, lane_start as int) =~= Seq::empty());
    while lane < BLOCK_SIZE
        invariant
            lane <= BLOCK_SIZE,
            ds.wf(),
            blk < ds.n_blocks,
            lane_start == 16 * blk,
            lo == if cluster_start < lane_start {
                lane_start as int
            } else {
                cluster_start as int
            },
            top.wf(),
            top@ == offer_all(
                before,
                span(
                    q@,
                    ds,
                    lo,
                    if cluster_end < lane_start + lane {
                        cluster_end as int
                    } else {
                        lane_start + lane
                    },
                ),
            ),
        decreases BLOCK_SIZE - lane,
    {
        let g: usize = lane_start + lane;
        if g < cluster_start || g >= cluster_end {
            proof {
                if g < cluster_start {
                    assert(span(q@, ds, lo, g + 1) =~= Seq::empty());
                    assert(span(q@, ds, lo, g as int) =~= Seq::empty());
                    assert(span(q@, ds, lo, cluster_end as int) =~= Seq::empty()
                        || cluster_end > g + 1);
                }
            }
            lane += 1;
            continue ;
        }
        let s: u64 = lane_distance(q, ds, blk, lane);
        top.try_insert(s, ds.labels[g], ds.orig_ids[g]);
        proof {
            lemma_span_step(before, q@, ds, lo, g as int);
        }
        lane += 1;
    }
}

/// Scans every vector of a cluster.
pub fn scan_cluster(q: &[i16; DIM], ds: &Dataset, ci: usize, top: &mut Top5)
    requires
        ds.wf(),
        ci < K,
        ds.cluster_in_range(ci as int),
        old(top).wf(),
    ensures
        final(top).wf(),
        final(top)@ == offer_all(old(top)@, cluster_span(q@, ds, ci as int)),
{
    let start: usize = ds.offsets[ci] as usize;
    let end: usize = ds.offsets[ci + 1] as usize;
    let ghost before = top@;
    if end <= start {
        assert(cluster_span(q@, ds, ci as int) =~= Seq::empty());
        return ;
    }
    let first_block: usize = start / 16;
    let last_block_excl: usize = (end - 1) / 16 + 1;
    let mut blk: usize = first_block;
    assert(span(q@, ds, start as int, 16 * first_block as int) =~= Seq::empty());
    while blk < last_block_excl
        invariant
            first_block <= blk <= last_block_excl,
            first_block == start / 16,
            last_block_excl == (end - 1) / 16 + 1,
            start < end <= ds.labels@.len(),
            ds.wf(),
            top.wf(),
            top@ == offer_all(
                before,
                span(
                    q@,
                    ds,
                    start as int,
                    if end < 16 * blk {
                        end as int
                    } else {
                        16 * blk as int
                    },
                ),
            ),
        decreases last_block_excl - blk,
    {
        let ghost mid = top@;
        scan_block16_scalar(q, ds, blk, start, end, top);
        proof {
            let a: int = start as int;
            let m: int = 16 * blk as int;
            let hi: int = if end < m + 16 {
                end as int
            } else {
                m + 16
            };
            if a < m {
                lemma_offer_all_concat(before, span(q@, ds, a, m), span(q@, ds, m, hi));
                assert(span(q@, ds, a, m) + span(q@, ds, m, hi) =~= span(q@, ds, a, hi));
            } else {
                assert(span(q@, ds, a, m) =~= Seq::empty());
            }
        }
        blk += 1;
    }
}

/// The vectors of the first `n` ranked clusters, cluster by cluster, as seen from `q`.
pub open spec fn probe(q: Seq<i16>, ds: &Dataset, ranked: Seq<(u32, u32)>, n: nat) -> Seq<Neighbor>
    decreases n,
{
    if n == 0 {
        Seq::empty()
    } else {
        probe(q, ds, ranked, (n - 1) as nat) + cluster_span(q, ds, ranked[n - 1].1 as int)
    }
}

/// The slots after the first `n` ranked clusters were scanned.
pub open spec fn probe_result(q: Seq<i16>, ds: &Dataset, ranked: Seq<(u32, u32)>, n: nat) -> Seq<
    Neighbor,
> {
    offer_all(vacant_slots(), probe(q, ds, ranked, n))
}

/// An answer of two or three frauds is close to the decision boundary.
pub open spec fn is_borderline(n: int) -> bool {
    n == 2 || n == 3
}

/// How many of the ranked clusters a search probes: 4, or 24 when the answer from 4 is borderline.
pub open spec fn probes(q: Seq<i16>, ds: &Dataset, ranked: Seq<(u32, u32)>) -> nat {
    if is_borderline(
        frauds(slot_labels(probe_result(q, ds, ranked, NPROBE_PRIMARY as nat))) as int,
    ) {
        NPROBE_REFINE as nat
    } else {
        NPROBE_PRIMARY as nat
    }
}

/// Cluster `c` is among the first `n` ranked ones.
pub open spec fn is_scanned(ranked: Seq<(u32, u32)>, n: int, c: int) -> bool {
    exists|i: int| 0 <= i < n && (#[trigger] ranked[i]).1 == c
}

/// The slots after the probes were repaired over the first `c` clusters: a cluster that was not
/// probed is scanned if its bounding box is closer than the worst neighbour held.
pub open spec fn repair(
    q: Seq<i16>,
    ds: &Dataset,
    ranked: Seq<(u32, u32)>,
    n: nat,
    c: nat,
) -> Seq<Neighbor>
    decreases c,
{
    if c == 0 {
        probe_result(q, ds, ranked, n)
    } else {
        let held = repair(q, ds, ranked, n, (c - 1) as nat);
        if bbox_distance_upto(q, ds, c - 1, DIM as nat) < worst_dist(held) && !is_scanned(
            ranked,
            n as int,
            c - 1,
        ) {
            offer_all(held, cluster_span(q, ds, c - 1))
        } else {
            held
        }
    }
}

/// The answer to a query: the closest vectors of the probed clusters, repaired over all others.
pub open spec fn search_result(q: Seq<i16>, ds: &Dataset, ranked: Seq<(u32, u32)>) -> Seq<
    Neighbor,
> {
    repair(q, ds, ranked, probes(q, ds, ranked), K as nat)
}

/// The first `n` ranked entries are there and name clusters.
pub open spec fn can_probe(ranked: Seq<(u32, u32)>, n: int) -> bool {
    &&& n <= ranked.len()
    &&& forall|i: int| 0 <= i < n ==> (#[trigger] ranked[i]).1 < K
}

/// Scans the ranked clusters from place `from` up to place `to`.
fn scan_ranked(
    q: &[i16; DIM],
    ds: &Dataset,
    ranked: &[(u32, u32)],
    from: usize,
    to: usize,
    top: &mut Top5,
)
    requires
        ds.wf(),
        ds.clusters_in_range(),
        from <= to,
        can_probe(ranked@, to as int),
        old(top).wf(),
        old(top)@ == probe_result(q@, ds, ranked@, from as nat),
    ensures
        final(top).wf(),
        final(top)@ == probe_result(q@, ds, ranked@, to as nat),
{
    let mut slot: usize = from;
    while slot < to
        invariant
            from <= slot <= to,
            ds.wf(),
            ds.clusters_in_range(),
            can_probe(ranked@, to as int),
            top.wf(),
            top@ == probe_result(q@, ds, ranked@, slot as nat),
        decreases to - slot,
    {
        let ci: usize = ranked[slot].1 as usize;
        assert(ds.cluster_in_range(ci as int));
        scan_cluster(q, ds, ci, top);
        proof {
            lemma_offer_all_concat(
                vacant_slots(),
                probe(q@, ds, ranked@, slot as nat),
                cluster_span(q@, ds, ci as int),
            );
        }
        slot += 1;
    }
}

/// Tests that a cluster is among the first `n` ranked ones.
fn was_scanned(ranked: &[(u32, u32)], n: usize, c: usize) -> (b: bool)
    requires
        n <= ranked@.len(),
    ensures
        b == is_scanned(ranked@, n as int, c as int),
{
    let mut i: usize = 0;
    while i < n
        invariant
            i <= n <= ranked@.len(),
            forall|j: int| 0 <= j < i ==> (#[trigger] ranked@[j]).1 != c,
        decreases n - i,
    {
        if ranked[i].1 as usize == c {
            return true;
        }
        i += 1;
    }
    false
}

/// Scans every cluster that was not probed and whose bounding box is closer than the worst
/// neighbour held.
fn repair_top5(q: &[i16; DIM], ds: &Dataset, ranked: &[(u32, u32)], n: usize, top: &mut Top5)
    requires
        ds.wf(),
        ds.clusters_in_range(),
        can_probe(ranked@, n as int),
        old(top).wf(),
        old(top)@ == probe_result(q@, ds, ranked@, n as nat),
    ensures
        final(top).wf(),
        final(top)@ == repair(q@, ds, ranked@, n as nat, K as nat),
{
    let mut c: usize = 0;
    while c < K
        invariant
            c <= K,
            ds.wf(),
            ds.clusters_in_range(),
            can_probe(ranked@, n as int),
            top.wf(),
            top@ == repair(q@, ds, ranked@, n as nat, c as nat),
        decreases K - c,
    {
        assert(ds.cluster_in_range(c as int));
        if bbox_lower_bound(q, ds, c) < top.worst() && !was_scanned(ranked, n, c) {
            scan_cluster(q, ds, c, top);
        }
        c += 1;
    }
}

/// Answers a query from an already ranked list of clusters.
pub fn search_ranked(q: &[i16; DIM], ds: &Dataset, ranked: &[(u32, u32)]) -> (labels: [u8; 5])
    requires
        ds.wf(),
        ds.clusters_in_range(),
        can_probe(ranked@, probes(q@, ds, ranked@) as int),
    ensures
        labels@ == slot_labels(search_result(q@, ds, ranked@)),
{
    let mut top = Top5::new();
    assert(probe(q@, ds, ranked@, 0) =~= Seq::empty());
    scan_ranked(q, ds, ranked, 0, NPROBE_PRIMARY, &mut top);
    let primary_frauds: usize = count_frauds(&top.labels());
    let probed: usize = if primary_frauds == 2 || primary_frauds == 3 {
        scan_ranked(q, ds, ranked, NPROBE_PRIMARY, NPROBE_REFINE, &mut top);
        NPROBE_REFINE
    } else {
        NPROBE_PRIMARY
    };
    repair_top5(q, ds, ranked, probed, &mut top);
    top.labels()
}

/// Answers a query. `centroid_keys` holds, per cluster, an integer that orders as the distance
/// of the query to the cluster's centroid does.
///
/// Where every vector lies in the bounding box of its cluster, and the closest five are
/// separated from the others by distance, the answer is that of brute force.
pub fn search_top5(q: &[i16; DIM], ds: &Dataset, centroid_keys: &[u32]) -> (labels: [u8; 5])
    requires
        ds.wf(),
        ds.clusters_in_range(),
        centroid_keys@.len() == K,
    ensures
        exists|ranked: Seq<(u32, u32)>| #[trigger]
            is_ranking(centroid_keys@, NPROBE_REFINE as nat, ranked) && labels@ == slot_labels(
                search_result(q@, ds, ranked),
            ),
        ds.is_partitioned() && boxes_enclose(ds) && is_separable(
            stored_neighbors(q@, ds, ds.n_vectors as nat),
        ) ==> {
            let brute = slot_labels(
                offer_all(vacant_slots(), stored_neighbors(q@, ds, ds.n_vectors as nat)),
            );
            &&& frauds(labels@) == frauds(brute)
            &&& labels@.to_multiset() == brute.to_multiset()
        },
{
    let ranked = rank_centroids(centroid_keys, NPROBE_REFINE);
    let labels = search_ranked(q, ds, ranked.as_slice());
    proof {
        if ds.is_partitioned() && boxes_enclose(ds) && is_separable(
            stored_neighbors(q@, ds, ds.n_vectors as nat),
        ) {
            law_search_agrees_with_brute_force(q@, ds, centroid_keys@, ranked@);
        }
    }
    labels
}

/// How far `x` lies outside the interval from `lo` to `hi`.
pub open spec fn excess(x: int, lo: int, hi: int) -> int {
    if x < lo {
        lo - x
    } else if x > hi {
        x - hi
    } else {
        0
    }
}

/// Sum of the squared excesses of the first `n` components over cluster `c`'s bounding box.
pub open spec fn bbox_distance_upto(q: Seq<i16>, ds: &Dataset, c: int, n: nat) -> int
    decreases n,
{
    if n == 0 {
        0
    } else {
        let e = excess(
            q[n - 1] as int,
            ds.bbox_min@[14 * c + n - 1] as int,
            ds.bbox_max@[14 * c + n - 1] as int,
        );
        bbox_distance_upto(q, ds, c, (n - 1) as nat) + e * e
    }
}

/// Squared distance from the query to the bounding box of a cluster.
pub fn bbox_lower_bound(q: &[i16; DIM], ds: &Dataset, ci: usize) -> (s: u64)
    requires
        ds.wf(),
        ci < K,
    ensures
        s == bbox_distance_upto(q@, ds, ci as int, DIM as nat),
        s == 0 <==> box_holds(ds, ci as int, q@),
        forall|v: Seq<i16>| #[trigger] box_holds(ds, ci as int, v) ==> s <= distance(q@, v),
        is_proper_box(ds, ci as int) ==> s == distance(q@, clamped(q@, ds, ci as int)),
{
    let mut s: u64 = 0;
    let base: usize = ci * 14;
    let mut d: usize = 0;
    while d < DIM
        invariant
            d <= DIM,
            ds.wf(),
            ci < K,
            base == 14 * ci,
            s == bbox_distance_upto(q@, ds, ci as int, d as nat),
            s <= d * 4294836225,
        decreases DIM - d,
    {
        let mn: i64 = ds.bbox_min[base + d] as i64;
        let mx: i64 = ds.bbox_max[base + d] as i64;
        let qd: i64 = q[d] as i64;
        let dd: i64 = if qd < mn {
            mn - qd
        } else if qd > mx {
            qd - mx
        } else {
            0
        };
        proof {
            lemma_square_bound(dd as int);
        }
        s += (dd * dd) as u64;
        d += 1;
    }
    proof {
        let c = ci as int;
        law_box_distance_is_zero_inside(q@, ds, c);
        assert forall|v: Seq<i16>| #[trigger] box_holds(ds, c, v) implies s <= distance(
            q@,
            v,
        ) by {
            law_box_distance_is_a_lower_bound(q@, ds, c, v);
        }
        if is_proper_box(ds, c) {
            law_box_distance_is_reached(q@, ds, c);
        }
    }
    s
}

} // verus!
