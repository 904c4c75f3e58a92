//! What distances, offers and boxes are, without going into how they are computed.

use vstd::prelude::*;
use crate::build_index::{
    assigned_before,
    box_high,
    box_low,
    is_built_from,
    is_cluster_box,
    is_in_place,
    is_padding,
    law_assigned_references_are_counted,
    law_position_in_cluster,
    lemma_assigned_step,
    position,
};
use crate::evaluate::{reference_neighbor, reference_neighbors};
use crate::index::{law_blocks_hold_the_references, vector_at, Dataset};
use crate::ivf::{
    bbox_distance_upto,
    cluster_span,
    distance,
    distance_upto,
    frauds,
    is_scanned,
    lemma_distance_bound,
    lemma_offer_all_len,
    lemma_worst_slot,
    neighbor_at,
    offer,
    offer_all,
    probe,
    probes,
    repair,
    search_result,
    slot_labels,
    stored_neighbors,
    vacant_slots,
    worst_dist,
    worst_slot,
    Neighbor,
    DIM,
    K,
};
use crate::recall::{
    lemma_frauds_are_labels,
    lemma_labels_held,
    lemma_near,
    lemma_near_references,
    lemma_stored_counted,
    near,
    near_references,
    separates,
};

verus! {

/// The square of a number.
pub open spec fn squared(x: int) -> int {
    x * x
}

proof fn lemma_distance_update(a: Seq<i16>, b: Seq<i16>, i: int, x: i16, n: nat)
    requires
        0 <= i < b.len(),
        n <= b.len(),
    ensures
        distance_upto(a, b.update(i, x), n) == distance_upto(a, b, n) + if i < n {
            squared(a[i] - x) - squared(a[i] - b[i])
        } else {
            0
        },
    decreases n,
{
    if n > 0 {
        lemma_distance_update(a, b, i, x, (n - 1) as nat);
    }
}

proof fn lemma_distance_symmetric(a: Seq<i16>, b: Seq<i16>, n: nat)
    ensures
        distance_upto(a, b, n) == distance_upto(b, a, n),
    decreases n,
{
    if n > 0 {
        lemma_distance_symmetric(a, b, (n - 1) as nat);
        let x = a[n - 1] as int;
        let y = b[n - 1] as int;
        assert((x - y) * (x - y) == (y - x) * (y - x)) by (nonlinear_arith);
    }
}

proof fn lemma_distance_zero(a: Seq<i16>, b: Seq<i16>, n: nat)
    ensures
        distance_upto(a, b, n) >= 0,
        distance_upto(a, b, n) == 0 <==> forall|i: int| 0 <= i < n ==> #[trigger] a[i] == b[i],
    decreases n,
{
    if n > 0 {
        lemma_distance_zero(a, b, (n - 1) as nat);
        let d = a[n - 1] - b[n - 1];
        assert(d * d >= 0) by (nonlinear_arith);
        assert(d * d == 0 <==> d == 0) by (nonlinear_arith);
        if distance_upto(a, b, n) == 0 {
            assert forall|i: int| 0 <= i < n implies #[trigger] a[i] == b[i] by {
                if i == n - 1 {
                    assert(d == 0);
                }
            }
        }
        if forall|i: int| 0 <= i < n ==> #[trigger] a[i] == b[i] {
            assert(a[n - 1] == b[n - 1]);
        }
    }
}

/// Distances do not depend on the direction, and are zero between equal vectors only. To move one
/// component, any of the fourteen, changes a distance by the difference of the two squares.
pub proof fn law_distances(a: Seq<i16>, b: Seq<i16>, i: int, x: i16)
    requires
        a.len() == DIM,
        b.len() == DIM,
        0 <= i < DIM,
    ensures
        distance(a, b) == distance(b, a),
        distance(a, b) >= 0,
        distance(a, b) == 0 <==> a == b,
        distance(a, b.update(i, x)) - distance(a, b) == squared(a[i] - x) - squared(a[i] - b[i]),
{
    lemma_distance_symmetric(a, b, DIM as nat);
    lemma_distance_zero(a, b, DIM as nat);
    lemma_distance_update(a, b, i, x, DIM as nat);
    if distance(a, b) == 0 {
        assert(a =~= b);
    }
}

/// An offer is taken if and only if it is strictly closer than one of the slots. It then takes the
/// place of the first of those that are farthest, and the others stay.
pub proof fn law_offers(slots: Seq<Neighbor>, n: Neighbor)
    requires
        slots.len() > 0,
    ensures
        offer(slots, n).len() == slots.len(),
        (forall|i: int| 0 <= i < slots.len() ==> (#[trigger] slots[i]).dist <= n.dist) ==> offer(
            slots,
            n,
        ) == slots,
        (exists|i: int| 0 <= i < slots.len() && (#[trigger] slots[i]).dist > n.dist) ==> exists|
            w: int,
        |
            {
                &&& 0 <= w < slots.len()
                &&& #[trigger] offer(slots, n)[w] == n
                &&& forall|i: int|
                    0 <= i < slots.len() ==> (#[trigger] slots[i]).dist <= slots[w].dist
                &&& forall|i: int| 0 <= i < w ==> (#[trigger] slots[i]).dist < slots[w].dist
                &&& forall|i: int|
                    0 <= i < slots.len() && i != w ==> #[trigger] offer(slots, n)[i] == slots[i]
            },
{
    lemma_worst_slot(slots);
    let w = worst_slot(slots);
    if exists|i: int| 0 <= i < slots.len() && (#[trigger] slots[i]).dist > n.dist {
        assert(offer(slots, n)[w] == n);
    }
}

/// Frauds are the labels that are 1.
pub proof fn law_frauds_are_ones(labels: Seq<u8>)
    ensures
        frauds(labels) == labels.to_multiset().count(1),
{
    lemma_frauds_are_labels(labels, labels.len());
    assert(labels.take(labels.len() as int) =~= labels);
}

/// The references that are closer to `q` than `t`.
pub open spec fn close_references(q: Seq<i16>, refs: Seq<[i16; DIM]>, t: int) -> Set<int> {
    Set::new(|i: int| 0 <= i < refs.len() && distance(q, refs[i]@) < t)
}

/// Those of them that have the label `l`.
pub open spec fn close_labelled(
    q: Seq<i16>,
    refs: Seq<[i16; DIM]>,
    labels: Seq<u8>,
    t: int,
    l: u8,
) -> Set<int> {
    Set::new(|i: int| 0 <= i < refs.len() && distance(q, refs[i]@) < t && labels[i] == l)
}

/// The smaller of five and `n`.
pub open spec fn five_or(n: nat) -> nat {
    if n < 5 {
        n
    } else {
        5
    }
}

/// Brute force answers with the labels of the closest references: where exactly the closest five
/// (or all, where there are fewer) are closer than `t`, each label is answered as often as it
/// stands among them, and vacant places count as label 0.
pub proof fn law_brute_force_answers_with_the_closest(
    q: Seq<i16>,
    refs: Seq<[i16; DIM]>,
    labels: Seq<u8>,
    t: int,
    l: u8,
)
    requires
        t <= u64::MAX,
        close_references(q, refs, t).len() == five_or(refs.len()),
    ensures
        slot_labels(
            offer_all(vacant_slots(), reference_neighbors(q, refs, labels)),
        ).to_multiset().count(l) == close_labelled(q, refs, labels, t, l).len() + if l == 0 {
            5 - five_or(refs.len())
        } else {
            0
        },
{
    let n = refs.len() as int;
    let ns = reference_neighbors(q, refs, labels);
    assert forall|i: int| 0 <= i < n implies #[trigger] reference_neighbor(q, refs, labels, i).dist
        == distance(q, refs[i]@) by {
        lemma_distance_bound(q, refs[i]@, DIM as nat);
    }
    assert(near_references(q, refs, labels, n, t, None) =~= close_references(q, refs, t));
    assert(near_references(q, refs, labels, n, t, Some(l)) =~= close_labelled(
        q,
        refs,
        labels,
        t,
        l,
    ));
    lemma_near_references(q, refs, labels, n, t, None);
    lemma_near_references(q, refs, labels, n, t, Some(l));
    assert(ns.take(n) =~= ns);
    assert(separates(ns, t));
    lemma_labels_held(ns, t, l);
}

/// The positions of an index whose vectors are closer to `q` than `t`.
pub open spec fn close_positions(q: Seq<i16>, ds: &Dataset, t: int) -> Set<int> {
    Set::new(|g: int| 0 <= g < ds.n_vectors && distance(q, vector_at(ds.blocks@, g)) < t)
}

/// Those of them that have the label `l`.
pub open spec fn close_positions_labelled(q: Seq<i16>, ds: &Dataset, t: int, l: u8) -> Set<int> {
    Set::new(
        |g: int|
            0 <= g < ds.n_vectors && distance(q, vector_at(ds.blocks@, g)) < t && ds.labels@[g]
                == l,
    )
}

/// Brute force over an index answers with the labels of its closest vectors, in the same way.
pub proof fn law_index_brute_force_answers_with_the_closest(
    q: Seq<i16>,
    ds: &Dataset,
    t: int,
    l: u8,
)
    requires
        t <= u64::MAX,
        close_positions(q, ds, t).len() == five_or(ds.n_vectors as nat),
    ensures
        slot_labels(
            offer_all(vacant_slots(), stored_neighbors(q, ds, ds.n_vectors as nat)),
        ).to_multiset().count(l) == close_positions_labelled(q, ds, t, l).len() + if l == 0 {
            5 - five_or(ds.n_vectors as nat)
        } else {
            0
        },
{
    let n = ds.n_vectors as int;
    let ns = stored_neighbors(q, ds, n as nat);
    assert forall|g: int| #[trigger] neighbor_at(q, ds, g).dist == distance(
        q,
        vector_at(ds.blocks@, g),
    ) by {
        lemma_distance_bound(q, vector_at(ds.blocks@, g), DIM as nat);
    }
    assert(near(q, ds, 0, n, t, None) =~= close_positions(q, ds, t));
    assert(near(q, ds, 0, n, t, Some(l)) =~= close_positions_labelled(q, ds, t, l));
    lemma_near(q, ds, 0, n, t, None);
    lemma_near(q, ds, 0, n, t, Some(l));
    lemma_stored_counted(q, ds, n as nat, t, None);
    lemma_stored_counted(q, ds, n as nat, t, Some(l));
    assert(separates(ns, t));
    lemma_labels_held(ns, t, l);
}

/// The vector in lane `lane` of block `b`: its components stand sixteen cells apart.
pub proof fn law_cells(blocks: Seq<i16>, b: int, lane: int, d: int)
    requires
        0 <= b,
        0 <= lane < 16,
        0 <= d < DIM,
    ensures
        vector_at(blocks, 16 * b + lane).len() == DIM,
        vector_at(blocks, 16 * b + lane)[d] == blocks[224 * b + 16 * d + lane],
{
    assert((16 * b + lane) / 16 == b);
    assert((16 * b + lane) % 16 == lane);
}

proof fn lemma_low_is_reached(blocks: Seq<i16>, a: int, b: int, d: int) -> (g: int)
    requires
        a < b,
        0 <= d < DIM,
    ensures
        a <= g < b,
        vector_at(blocks, g)[d] == box_low(blocks, a, b, d),
    decreases b - a,
{
    let x = vector_at(blocks, b - 1)[d];
    if b - 1 == a {
        assert(box_low(blocks, a, a, d) == i16::MAX);
        b - 1
    } else if x < box_low(blocks, a, b - 1, d) {
        b - 1
    } else {
        lemma_low_is_reached(blocks, a, b - 1, d)
    }
}

proof fn lemma_high_is_reached(blocks: Seq<i16>, a: int, b: int, d: int) -> (g: int)
    requires
        a < b,
        0 <= d < DIM,
    ensures
        a <= g < b,
        vector_at(blocks, g)[d] == box_high(blocks, a, b, d),
    decreases b - a,
{
    let x = vector_at(blocks, b - 1)[d];
    if b - 1 == a {
        assert(box_high(blocks, a, a, d) == i16::MIN);
        b - 1
    } else if x > box_high(blocks, a, b - 1, d) {
        b - 1
    } else {
        lemma_high_is_reached(blocks, a, b - 1, d)
    }
}

/// The boxes of a built index are no larger than they must be: each bound is that of one of the
/// cluster's vectors. The box of an empty cluster holds the bounds of nothing.
pub proof fn law_built_boxes_are_tight(
    ds: &Dataset,
    vectors: Seq<[i16; DIM]>,
    labels: Seq<u8>,
    assign: Seq<u32>,
    c: int,
    d: int,
)
    requires
        is_built_from(ds, vectors, labels, assign),
        0 <= c < K,
        0 <= d < DIM,
    ensures
        ds.offsets@[c] < ds.offsets@[c + 1] ==> {
            &&& exists|g: int|
                ds.in_cluster(c, g) && #[trigger] vector_at(ds.blocks@, g)[d] == ds.bbox_min@[14
                    * c + d]
            &&& exists|g: int|
                ds.in_cluster(c, g) && #[trigger] vector_at(ds.blocks@, g)[d] == ds.bbox_max@[14
                    * c + d]
        },
        ds.offsets@[c] >= ds.offsets@[c + 1] ==> ds.bbox_min@[14 * c + d] == i16::MAX
            && ds.bbox_max@[14 * c + d] == i16::MIN,
{
    let a = ds.offsets@[c] as int;
    let b = ds.offsets@[c + 1] as int;
    assert(is_cluster_box(ds.offsets@, ds.blocks@, ds.bbox_min@, ds.bbox_max@, c));
    assert(ds.bbox_min@[14 * c + d] == box_low(ds.blocks@, a, b, d));
    assert(ds.bbox_max@[14 * c + d] == box_high(ds.blocks@, a, b, d));
    if a < b {
        let g = lemma_low_is_reached(ds.blocks@, a, b, d);
        let h = lemma_high_is_reached(ds.blocks@, a, b, d);
        assert(ds.in_cluster(c, g) && ds.in_cluster(c, h));
    }
}

/// The vectors of a cluster are visited from the first to the last, as they are stored: with their
/// distance, their label and their place among the references.
pub proof fn law_clusters_are_visited_in_order(q: Seq<i16>, ds: &Dataset, c: int, j: int)
    requires
        0 <= c < K,
        0 <= j < ds.offsets@[c + 1] - ds.offsets@[c],
    ensures
        ({
            let s = cluster_span(q, ds, c);
            let g = ds.offsets@[c] + j;
            &&& s.len() == ds.offsets@[c + 1] - ds.offsets@[c]
            &&& s[j].dist == distance(q, vector_at(ds.blocks@, g))
            &&& s[j].label == ds.labels@[g]
            &&& s[j].id == ds.orig_ids@[g]
        }),
{
    lemma_distance_bound(q, vector_at(ds.blocks@, ds.offsets@[c] + j), DIM as nat);
}

/// The ranked clusters are visited one after another, from the first on.
pub proof fn law_probes_follow_the_ranking(
    q: Seq<i16>,
    ds: &Dataset,
    ranked: Seq<(u32, u32)>,
    n: nat,
)
    ensures
        probe(q, ds, ranked, 0) == Seq::<Neighbor>::empty(),
        probe(q, ds, ranked, n + 1) == probe(q, ds, ranked, n) + cluster_span(
            q,
            ds,
            ranked[n as int].1 as int,
        ),
{
}

/// Brute force visits what is stored, and what it compares with, from the first to the last.
pub proof fn law_brute_force_visits_in_order(
    q: Seq<i16>,
    ds: &Dataset,
    refs: Seq<[i16; DIM]>,
    labels: Seq<u8>,
    n: nat,
    i: int,
)
    requires
        0 <= i <= u32::MAX,
    ensures
        stored_neighbors(q, ds, n).len() == n,
        reference_neighbors(q, refs, labels).len() == refs.len(),
        i < n ==> {
            let x = stored_neighbors(q, ds, n)[i];
            &&& x.dist == distance(q, vector_at(ds.blocks@, i))
            &&& x.label == ds.labels@[i]
            &&& x.id == i
        },
        i < refs.len() ==> {
            let x = reference_neighbors(q, refs, labels)[i];
            &&& x.dist == distance(q, refs[i]@)
            &&& x.label == labels[i]
            &&& x.id == i
        },
{
    lemma_distance_bound(q, vector_at(ds.blocks@, i), DIM as nat);
    lemma_distance_bound(q, refs[i]@, DIM as nat);
}

/// A search scans four clusters, and twenty-four where those answer with two or three frauds.
pub proof fn law_probes(q: Seq<i16>, ds: &Dataset, ranked: Seq<(u32, u32)>)
    ensures
        ({
            let four = slot_labels(offer_all(vacant_slots(), probe(q, ds, ranked, 4)));
            let found = four.to_multiset().count(1);
            &&& found == 2 || found == 3 ==> probes(q, ds, ranked) == 24
            &&& found != 2 && found != 3 ==> probes(q, ds, ranked) == 4
        }),
{
    law_frauds_are_ones(slot_labels(offer_all(vacant_slots(), probe(q, ds, ranked, 4))));
}

proof fn lemma_repair_len(q: Seq<i16>, ds: &Dataset, ranked: Seq<(u32, u32)>, n: nat, c: nat)
    ensures
        repair(q, ds, ranked, n, c).len() == 5,
    decreases c,
{
    if c == 0 {
        lemma_offer_all_len(vacant_slots(), probe(q, ds, ranked, n));
    } else {
        lemma_repair_len(q, ds, ranked, n, (c - 1) as nat);
        lemma_offer_all_len(
            repair(q, ds, ranked, n, (c - 1) as nat),
            cluster_span(q, ds, c - 1),
        );
    }
}

/// A search then goes through all clusters. One that was scanned before, or whose box is no closer
/// than any of the five, is passed over; any other one is scanned.
pub proof fn law_searches_go_through_all_clusters(
    q: Seq<i16>,
    ds: &Dataset,
    ranked: Seq<(u32, u32)>,
    n: nat,
    c: nat,
)
    ensures
        repair(q, ds, ranked, n, 0) == offer_all(vacant_slots(), probe(q, ds, ranked, n)),
        search_result(q, ds, ranked) == repair(q, ds, ranked, probes(q, ds, ranked), 1024),
        ({
            let held = repair(q, ds, ranked, n, c);
            let next = repair(q, ds, ranked, n, c + 1);
            let far = bbox_distance_upto(q, ds, c as int, 14);
            let before = exists|i: int| 0 <= i < n && (#[trigger] ranked[i]).1 == c;
            let closer = exists|i: int| 0 <= i < 5 && (#[trigger] held[i]).dist > far;
            &&& before || !closer ==> next == held
            &&& !before && closer ==> next == offer_all(held, cluster_span(q, ds, c as int))
        }),
{
    let held = repair(q, ds, ranked, n, c);
    let far = bbox_distance_upto(q, ds, c as int, 14);
    lemma_repair_len(q, ds, ranked, n, c);
    lemma_worst_slot(held);
    let w = worst_slot(held);
    if far < worst_dist(held) {
        assert(held[w].dist > far);
    }
    assert(is_scanned(ranked, n as int, c as int) <==> exists|i: int|
        0 <= i < n && (#[trigger] ranked[i]).1 == c);
}

/// The square of how far component `d` of `q` lies outside of the box of cluster `c`, below its
/// lower bound first of all.
pub open spec fn outside(q: Seq<i16>, ds: &Dataset, c: int, d: int) -> int {
    if q[d] < ds.bbox_min@[14 * c + d] {
        squared(ds.bbox_min@[14 * c + d] - q[d])
    } else if q[d] > ds.bbox_max@[14 * c + d] {
        squared(q[d] - ds.bbox_max@[14 * c + d])
    } else {
        0
    }
}

/// The distance to a box, be it empty or not, is the sum over all fourteen components.
pub proof fn law_box_distances(q: Seq<i16>, ds: &Dataset, c: int)
    ensures
        bbox_distance_upto(q, ds, c, 14) == outside(q, ds, c, 0)
            + outside(q, ds, c, 1)
            + outside(q, ds, c, 2)
            + outside(q, ds, c, 3)
            + outside(q, ds, c, 4)
            + outside(q, ds, c, 5)
            + outside(q, ds, c, 6)
            + outside(q, ds, c, 7)
            + outside(q, ds, c, 8)
            + outside(q, ds, c, 9)
            + outside(q, ds, c, 10)
            + outside(q, ds, c, 11)
            + outside(q, ds, c, 12)
            + outside(q, ds, c, 13),
{
    reveal_with_fuel(bbox_distance_upto, 15);
}

/// The clusters of a built index follow each other from position 0 on, and each is as long as there
/// are references assigned to it.
pub proof fn law_built_clusters_hold_their_references(
    ds: &Dataset,
    vectors: Seq<[i16; DIM]>,
    labels: Seq<u8>,
    assign: Seq<u32>,
    c: int,
)
    requires
        is_built_from(ds, vectors, labels, assign),
        0 <= c < K,
    ensures
        ds.n_vectors == vectors.len(),
        ds.offsets@[0] == 0,
        ds.offsets@[c + 1] - ds.offsets@[c] == assign.filter(|a: u32| a == c).len(),
{
    let n = assign.len();
    assert(assign.take(n as int) =~= assign);
    law_assigned_references_are_counted(assign, n, c);
    lemma_assigned_step(assign, n, c);
    assert(ds.offsets@[c] == assigned_before(assign, n, c));
    assert(ds.offsets@[c + 1] == assigned_before(assign, n, c + 1));
}

/// What a built index holds behind its references, to the end of the last block, is zero.
pub proof fn law_built_index_ends_with_zeros(
    ds: &Dataset,
    vectors: Seq<[i16; DIM]>,
    labels: Seq<u8>,
    assign: Seq<u32>,
    g: int,
    d: int,
)
    requires
        is_built_from(ds, vectors, labels, assign),
        vectors.len() <= g < 16 * ds.n_blocks,
        0 <= d < DIM,
    ensures
        16 * (ds.n_blocks - 1) < vectors.len() <= 16 * ds.n_blocks,
        ds.labels@.len() == 16 * ds.n_blocks,
        vector_at(ds.blocks@, g)[d] == 0,
        ds.labels@[g] == 0,
        ds.orig_ids@[g] == 0,
{
    law_blocks_hold_the_references(vectors.len() as int);
    assert(is_padding(ds.blocks@, ds.labels@, ds.orig_ids@, g));
}

/// Each reference stands in a built index within the cluster that it is assigned to, with all its
/// components, its label and its place.
pub proof fn law_built_references_are_stored(
    ds: &Dataset,
    vectors: Seq<[i16; DIM]>,
    labels: Seq<u8>,
    assign: Seq<u32>,
    i: int,
) -> (g: int)
    requires
        is_built_from(ds, vectors, labels, assign),
        0 <= i < vectors.len(),
    ensures
        ds.offsets@[assign[i] as int] <= g < ds.offsets@[assign[i] + 1],
        vector_at(ds.blocks@, g) == vectors[i]@,
        ds.labels@[g] == labels[i],
        ds.orig_ids@[g] == i,
{
    law_position_in_cluster(assign, i);
    assert(is_in_place(vectors, labels, assign, ds.blocks@, ds.labels@, ds.orig_ids@, i));
    assert(ds.offsets@[assign[i] as int] == assigned_before(
        assign,
        assign.len(),
        assign[i] as int,
    ));
    assert(ds.offsets@[assign[i] + 1] == assigned_before(assign, assign.len(), assign[i] + 1));
    position(assign, i)
}

} // verus!
