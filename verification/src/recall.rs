//! What a search can be relied on to find.

use vstd::prelude::*;
use vstd::multiset::Multiset;
use vstd::seq_lib::{to_multiset_build, to_multiset_insert, to_multiset_remove};
use vstd::set_lib::{
    lemma_int_range,
    lemma_len_subset,
    lemma_map_size,
    lemma_set_disjoint_lens,
    lemma_subset_equality,
    set_int_range,
};
use crate::build_index::{
    box_high,
    box_low,
    is_assignment,
    is_built_from,
    is_cluster_box,
    is_in_place,
    law_boxes_enclose,
    law_position_in_cluster,
    law_positions_distinct,
    position,
};
use crate::evaluate::{reference_neighbor, reference_neighbors};
use crate::index::{vector_at, Dataset};
use crate::ivf::{
    bbox_distance_upto,
    cluster_span,
    distance,
    distance_upto,
    excess,
    frauds,
    frauds_upto,
    is_scanned,
    lemma_distance_bound,
    lemma_offer_all_concat,
    lemma_offer_all_len,
    lemma_worst_slot,
    neighbor_at,
    offer,
    offer_all,
    probe,
    probe_result,
    probes,
    repair,
    search_result,
    slot_labels,
    span,
    stored_neighbors,
    vacant,
    vacant_slots,
    worst_dist,
    worst_slot,
    Neighbor,
    DIM,
    K,
    NPROBE_REFINE,
};
use crate::ranking::is_ranking;

verus! {

/// `n` is closer than `t`, and has the one label that counts, where only one does.
pub open spec fn counts(n: Neighbor, t: int, only: Option<u8>) -> bool {
    n.dist < t && (only matches Some(l) ==> n.label == l)
}

/// 1 if `n` counts.
pub open spec fn one(n: Neighbor, t: int, only: Option<u8>) -> nat {
    if counts(n, t, only) {
        1
    } else {
        0
    }
}

/// How many of `ns` count.
pub open spec fn counted(ns: Seq<Neighbor>, t: int, only: Option<u8>) -> nat
    decreases ns.len(),
{
    if ns.len() == 0 {
        0
    } else {
        counted(ns.drop_last(), t, only) + one(ns.last(), t, only)
    }
}

/// How many of `ns` are closer than `t`.
pub open spec fn closer_than(ns: Seq<Neighbor>, t: int) -> nat {
    counted(ns, t, None)
}

proof fn lemma_counted_update(ns: Seq<Neighbor>, w: int, n: Neighbor, t: int, only: Option<u8>)
    requires
        0 <= w < ns.len(),
    ensures
        counted(ns.update(w, n), t, only) + one(ns[w], t, only) == counted(ns, t, only) + one(
            n,
            t,
            only,
        ),
    decreases ns.len(),
{
    if w == ns.len() - 1 {
        assert(ns.update(w, n).drop_last() =~= ns.drop_last());
    } else {
        lemma_counted_update(ns.drop_last(), w, n, t, only);
        assert(ns.update(w, n).drop_last() =~= ns.drop_last().update(w, n));
    }
}

proof fn lemma_none_counted(ns: Seq<Neighbor>, t: int, only: Option<u8>)
    requires
        forall|i: int| 0 <= i < ns.len() ==> !counts(#[trigger] ns[i], t, only),
    ensures
        counted(ns, t, only) == 0,
    decreases ns.len(),
{
    if ns.len() > 0 {
        let front = ns.drop_last();
        assert(forall|i: int| 0 <= i < front.len() ==> #[trigger] front[i] == ns[i]);
        lemma_none_counted(front, t, only);
        assert(ns.last() == ns[ns.len() - 1]);
    }
}

proof fn lemma_closer_than_bounds(ns: Seq<Neighbor>, t: int)
    ensures
        closer_than(ns, t) <= ns.len(),
        (forall|i: int| 0 <= i < ns.len() ==> (#[trigger] ns[i]).dist < t) ==> closer_than(ns, t)
            == ns.len(),
        (exists|i: int| 0 <= i < ns.len() && (#[trigger] ns[i]).dist >= t) ==> closer_than(ns, t)
            < ns.len(),
    decreases ns.len(),
{
    if ns.len() > 0 {
        let front = ns.drop_last();
        lemma_closer_than_bounds(front, t);
        assert(forall|i: int| 0 <= i < front.len() ==> #[trigger] front[i] == ns[i]);
        if exists|i: int| 0 <= i < ns.len() && (#[trigger] ns[i]).dist >= t {
            let i = choose|i: int| 0 <= i < ns.len() && (#[trigger] ns[i]).dist >= t;
            if i < front.len() {
                assert(front[i].dist >= t);
            }
        }
    }
}

/// As long as there is a slot for everything closer than `t`, nothing closer than `t` gets lost.
proof fn lemma_offer_counted(slots: Seq<Neighbor>, n: Neighbor, t: int, only: Option<u8>)
    requires
        slots.len() > 0,
        closer_than(slots, t) + one(n, t, None) <= slots.len(),
    ensures
        counted(offer(slots, n), t, only) == counted(slots, t, only) + one(n, t, only),
{
    lemma_worst_slot(slots);
    lemma_closer_than_bounds(slots, t);
    let w = worst_slot(slots);
    if n.dist < t {
        if slots[w].dist < t {
            assert(forall|i: int| 0 <= i < slots.len() ==> (#[trigger] slots[i]).dist < t);
        }
    }
    if n.dist < worst_dist(slots) {
        lemma_counted_update(slots, w, n, t, only);
    }
}

proof fn lemma_offer_closer(slots: Seq<Neighbor>, n: Neighbor, t: int)
    requires
        slots.len() > 0,
    ensures
        closer_than(offer(slots, n), t) == if closer_than(slots, t) + one(n, t, None)
            < slots.len() {
            closer_than(slots, t) + one(n, t, None)
        } else {
            slots.len()
        },
{
    lemma_closer_than_bounds(slots, t);
    if closer_than(slots, t) + one(n, t, None) <= slots.len() {
        lemma_offer_counted(slots, n, t, None);
    } else {
        let after = offer(slots, n);
        lemma_worst_slot(slots);
        assert forall|i: int| 0 <= i < after.len() implies (#[trigger] after[i]).dist < t by {
            if after[i] == slots[i] && slots[i].dist >= t {
                assert(closer_than(slots, t) < slots.len());
            }
        }
        lemma_closer_than_bounds(after, t);
    }
}

proof fn lemma_offer_all_closer(slots: Seq<Neighbor>, ns: Seq<Neighbor>, t: int)
    requires
        slots.len() > 0,
    ensures
        closer_than(offer_all(slots, ns), t) == if closer_than(slots, t) + closer_than(ns, t)
            < slots.len() {
            closer_than(slots, t) + closer_than(ns, t)
        } else {
            slots.len()
        },
    decreases ns.len(),
{
    if ns.len() == 0 {
        lemma_closer_than_bounds(slots, t);
    } else {
        lemma_offer_all_closer(slots, ns.drop_last(), t);
        lemma_offer_all_len(slots, ns.drop_last());
        lemma_offer_closer(offer_all(slots, ns.drop_last()), ns.last(), t);
    }
}

/// Vacant slots count for nothing.
proof fn lemma_vacant_counted(t: int, only: Option<u8>)
    requires
        t <= u64::MAX,
    ensures
        counted(vacant_slots(), t, only) == 0,
{
    lemma_none_counted(vacant_slots(), t, only);
}

/// The neighbours held are the closest ones offered: below every bound, as many are held as were
/// offered, up to five.
pub proof fn law_top5_holds_the_closest(ns: Seq<Neighbor>, t: int)
    requires
        t <= u64::MAX,
    ensures
        closer_than(offer_all(vacant_slots(), ns), t) == if closer_than(ns, t) < 5 {
            closer_than(ns, t)
        } else {
            5
        },
{
    lemma_vacant_counted(t, None);
    lemma_offer_all_closer(vacant_slots(), ns, t);
}

/// Nothing is held that was not offered, nor more often than it was offered.
pub proof fn law_top5_holds_only_offers(ns: Seq<Neighbor>)
    ensures
        offer_all(vacant_slots(), ns).len() == 5,
        offer_all(vacant_slots(), ns).to_multiset().subset_of(
            vacant_slots().to_multiset().add(ns.to_multiset()),
        ),
    decreases ns.len(),
{
    let start = vacant_slots();
    lemma_offer_all_len(start, ns);
    if ns.len() == 0 {
        assert(ns =~= Seq::empty());
    } else {
        let front = ns.drop_last();
        law_top5_holds_only_offers(front);
        let held = offer_all(start, front);
        let n = ns.last();
        lemma_offer_all_len(start, front);
        lemma_worst_slot(held);
        to_multiset_build(front, n);
        assert(front.push(n) =~= ns);
        if n.dist < worst_dist(held) {
            let w = worst_slot(held);
            to_multiset_remove(held, w);
            to_multiset_insert(held.remove(w), w, n);
            assert(held.remove(w).insert(w, n) =~= held.update(w, n));
        }
    }
}

proof fn lemma_closer_than_multiset(ns: Seq<Neighbor>, t: int)
    ensures
        closer_than(ns, t) == ns.to_multiset().filter(|n: Neighbor| n.dist < t).len(),
    decreases ns.len(),
{
    let f = |n: Neighbor| n.dist < t;
    broadcast use vstd::seq_lib::group_to_multiset_ensures;

    if ns.len() == 0 {
        assert(ns.to_multiset().filter(f) =~= Multiset::empty());
    } else {
        let front = ns.drop_last();
        lemma_closer_than_multiset(front, t);
        to_multiset_build(front, ns.last());
        assert(front.push(ns.last()) =~= ns);
        if f(ns.last()) {
            assert(ns.to_multiset().filter(f) =~= front.to_multiset().filter(f).insert(ns.last()));
        } else {
            assert(ns.to_multiset().filter(f) =~= front.to_multiset().filter(f));
        }
    }
}

/// The distances held do not depend on the order in which the neighbours were offered.
pub proof fn law_top5_order_does_not_matter(a: Seq<Neighbor>, b: Seq<Neighbor>, t: int)
    requires
        a.to_multiset() == b.to_multiset(),
    ensures
        closer_than(offer_all(vacant_slots(), a), t) == closer_than(
            offer_all(vacant_slots(), b),
            t,
        ),
{
    lemma_closer_than_multiset(a, t);
    lemma_closer_than_multiset(b, t);
    lemma_offer_all_closer(vacant_slots(), a, t);
    lemma_offer_all_closer(vacant_slots(), b, t);
}

/// The positions from `a` up to `b` whose vectors count.
pub open spec fn near(
    q: Seq<i16>,
    ds: &Dataset,
    a: int,
    b: int,
    t: int,
    only: Option<u8>,
) -> Set<int> {
    Set::new(|g: int| a <= g < b && counts(neighbor_at(q, ds, g), t, only))
}

pub proof fn lemma_near(q: Seq<i16>, ds: &Dataset, a: int, b: int, t: int, only: Option<u8>)
    requires
        a <= b,
    ensures
        near(q, ds, a, b, t, only).finite(),
        counted(span(q, ds, a, b), t, only) == near(q, ds, a, b, t, only).len(),
    decreases b - a,
{
    if a == b {
        assert(near(q, ds, a, b, t, only) =~= Set::empty());
        assert(span(q, ds, a, b) =~= Seq::empty());
    } else {
        let before = near(q, ds, a, b - 1, t, only);
        lemma_near(q, ds, a, b - 1, t, only);
        assert(span(q, ds, a, b).drop_last() =~= span(q, ds, a, b - 1));
        assert(span(q, ds, a, b).last() == neighbor_at(q, ds, b - 1));
        if counts(neighbor_at(q, ds, b - 1), t, only) {
            assert(near(q, ds, a, b, t, only) =~= before.insert(b - 1));
        } else {
            assert(near(q, ds, a, b, t, only) =~= before);
        }
    }
}

proof fn lemma_counted_concat(a: Seq<Neighbor>, b: Seq<Neighbor>, t: int, only: Option<u8>)
    ensures
        counted(a + b, t, only) == counted(a, t, only) + counted(b, t, only),
    decreases b.len(),
{
    if b.len() == 0 {
        assert(a + b =~= a);
    } else {
        lemma_counted_concat(a, b.drop_last(), t, only);
        assert((a + b).drop_last() =~= a + b.drop_last());
    }
}

pub proof fn lemma_stored_counted(q: Seq<i16>, ds: &Dataset, n: nat, t: int, only: Option<u8>)
    ensures
        counted(stored_neighbors(q, ds, n), t, only) == counted(
            span(q, ds, 0, n as int),
            t,
            only,
        ),
    decreases n,
{
    if n > 0 {
        lemma_stored_counted(q, ds, (n - 1) as nat, t, only);
        assert(stored_neighbors(q, ds, n).drop_last() =~= stored_neighbors(q, ds, (n - 1) as nat));
        assert(span(q, ds, 0, n as int).drop_last() =~= span(q, ds, 0, n - 1));
    }
}

proof fn lemma_offsets_ascend(ds: &Dataset, a: int, b: int)
    requires
        ds.is_partitioned(),
        0 <= a <= b <= 1024,
    ensures
        ds.offsets@[a] <= ds.offsets@[b],
    decreases b - a,
{
    if a < b {
        lemma_offsets_ascend(ds, a, b - 1);
        assert(ds.offsets@[b - 1] <= ds.offsets@[b - 1 + 1]);
    }
}

/// The first `n` ranked entries name distinct clusters.
pub open spec fn names_clusters(ranked: Seq<(u32, u32)>, n: int) -> bool {
    &&& 0 <= n <= ranked.len()
    &&& forall|i: int| 0 <= i < n ==> (#[trigger] ranked[i]).1 < K
    &&& forall|i: int, j: int|
        0 <= i < j < n ==> (#[trigger] ranked[i]).1 != (#[trigger] ranked[j]).1
}

/// Position `g` belongs to one of the first `n` ranked clusters.
pub open spec fn is_probed(ds: &Dataset, ranked: Seq<(u32, u32)>, n: int, g: int) -> bool {
    exists|i: int| 0 <= i < n && ds.in_cluster((#[trigger] ranked[i]).1 as int, g)
}

/// The probed positions whose vectors count.
spec fn near_probed(
    q: Seq<i16>,
    ds: &Dataset,
    ranked: Seq<(u32, u32)>,
    n: int,
    t: int,
    only: Option<u8>,
) -> Set<int> {
    Set::new(
        |g: int| is_probed(ds, ranked, n, g) && counts(neighbor_at(q, ds, g), t, only),
    )
}

proof fn lemma_near_probed(
    q: Seq<i16>,
    ds: &Dataset,
    ranked: Seq<(u32, u32)>,
    n: nat,
    t: int,
    only: Option<u8>,
)
    requires
        ds.is_partitioned(),
        names_clusters(ranked, n as int),
    ensures
        near_probed(q, ds, ranked, n as int, t, only).finite(),
        counted(probe(q, ds, ranked, n), t, only) == near_probed(
            q,
            ds,
            ranked,
            n as int,
            t,
            only,
        ).len(),
    decreases n,
{
    if n == 0 {
        assert(near_probed(q, ds, ranked, 0, t, only) =~= Set::empty());
    } else {
        let m = (n - 1) as nat;
        lemma_near_probed(q, ds, ranked, m, t, only);
        let c = ranked[m as int].1 as int;
        let a = ds.offsets@[c] as int;
        let b = ds.offsets@[c + 1] as int;
        lemma_offsets_ascend(ds, c, c + 1);
        lemma_near(q, ds, a, b, t, only);
        lemma_counted_concat(probe(q, ds, ranked, m), cluster_span(q, ds, c), t, only);
        let old_near = near_probed(q, ds, ranked, m as int, t, only);
        let new_near = near(q, ds, a, b, t, only);
        assert forall|g: int| old_near.contains(g) && new_near.contains(g) implies false by {
            let i = choose|i: int| 0 <= i < m && ds.in_cluster((#[trigger] ranked[i]).1 as int, g);
            let o = ranked[i].1 as int;
            if o < c {
                lemma_offsets_ascend(ds, o + 1, c);
            } else {
                lemma_offsets_ascend(ds, c + 1, o);
            }
        }
        assert(old_near.disjoint(new_near));
        lemma_set_disjoint_lens(old_near, new_near);
        assert(near_probed(q, ds, ranked, n as int, t, only) =~= old_near + new_near) by {
            assert forall|g: int| (old_near + new_near).contains(g) implies near_probed(
                q,
                ds,
                ranked,
                n as int,
                t,
                only,
            ).contains(g) by {
                if old_near.contains(g) {
                    let i = choose|i: int|
                        0 <= i < m && ds.in_cluster((#[trigger] ranked[i]).1 as int, g);
                    assert(ds.in_cluster(ranked[i].1 as int, g));
                } else {
                    assert(ds.in_cluster(ranked[m as int].1 as int, g));
                }
            }
            assert forall|g: int|
                near_probed(q, ds, ranked, n as int, t, only).contains(g) implies (old_near
                + new_near).contains(g) by {
                let i = choose|i: int|
                    0 <= i < n && ds.in_cluster((#[trigger] ranked[i]).1 as int, g);
                if i < m {
                    assert(is_probed(ds, ranked, m as int, g));
                }
            }
        }
    }
}

/// What is probed is stored.
proof fn lemma_probed_are_stored(
    q: Seq<i16>,
    ds: &Dataset,
    ranked: Seq<(u32, u32)>,
    n: nat,
    t: int,
    only: Option<u8>,
)
    requires
        ds.is_partitioned(),
        names_clusters(ranked, n as int),
    ensures
        counted(probe(q, ds, ranked, n), t, only) <= counted(
            stored_neighbors(q, ds, ds.n_vectors as nat),
            t,
            only,
        ),
{
    let all = ds.n_vectors as int;
    let probed = near_probed(q, ds, ranked, n as int, t, only);
    let stored = near(q, ds, 0, all, t, only);
    lemma_near_probed(q, ds, ranked, n, t, only);
    lemma_near(q, ds, 0, all, t, only);
    lemma_stored_counted(q, ds, all as nat, t, only);
    assert forall|g: int| probed.contains(g) implies stored.contains(g) by {
        let i = choose|i: int| 0 <= i < n && ds.in_cluster((#[trigger] ranked[i]).1 as int, g);
        lemma_offsets_ascend(ds, ranked[i].1 + 1, 1024);
    }
    lemma_len_subset(probed, stored);
}

/// Every reference closer to `q` than `t` lies in one of the first `n` ranked clusters.
pub open spec fn covers(
    q: Seq<i16>,
    ds: &Dataset,
    ranked: Seq<(u32, u32)>,
    n: int,
    t: int,
) -> bool {
    forall|g: int|
        0 <= g < ds.n_vectors && (#[trigger] neighbor_at(q, ds, g)).dist < t ==> is_probed(
            ds,
            ranked,
            n,
            g,
        )
}

/// What is stored below `t` is probed where the probes cover it.
proof fn lemma_stored_are_probed(
    q: Seq<i16>,
    ds: &Dataset,
    ranked: Seq<(u32, u32)>,
    n: nat,
    t: int,
    only: Option<u8>,
)
    requires
        ds.is_partitioned(),
        names_clusters(ranked, n as int),
        covers(q, ds, ranked, n as int, t),
    ensures
        counted(probe(q, ds, ranked, n), t, only) == counted(
            stored_neighbors(q, ds, ds.n_vectors as nat),
            t,
            only,
        ),
{
    let all = ds.n_vectors as int;
    let probed = near_probed(q, ds, ranked, n as int, t, only);
    let stored = near(q, ds, 0, all, t, only);
    lemma_probed_are_stored(q, ds, ranked, n, t, only);
    lemma_near_probed(q, ds, ranked, n, t, only);
    lemma_near(q, ds, 0, all, t, only);
    lemma_stored_counted(q, ds, all as nat, t, only);
    lemma_len_subset(stored, probed);
}

/// A search that scans some of the clusters never does better than one that compares the query
/// with every reference: below every bound it holds no more neighbours.
pub proof fn law_probing_is_no_closer_than_brute_force(
    q: Seq<i16>,
    ds: &Dataset,
    ranked: Seq<(u32, u32)>,
    n: nat,
    t: int,
)
    requires
        ds.is_partitioned(),
        names_clusters(ranked, n as int),
    ensures
        closer_than(probe_result(q, ds, ranked, n), t) <= closer_than(
            offer_all(vacant_slots(), stored_neighbors(q, ds, ds.n_vectors as nat)),
            t,
        ),
{
    let all = ds.n_vectors as int;
    lemma_probed_are_stored(q, ds, ranked, n, t, None);
    lemma_offer_all_closer(vacant_slots(), probe(q, ds, ranked, n), t);
    lemma_offer_all_closer(vacant_slots(), stored_neighbors(q, ds, all as nat), t);
}

/// If every reference closer than `t` lies in a scanned cluster, the search finds as many below
/// `t` as one that compares the query with every reference.
pub proof fn law_probing_is_exact_where_it_covers(
    q: Seq<i16>,
    ds: &Dataset,
    ranked: Seq<(u32, u32)>,
    n: nat,
    t: int,
)
    requires
        ds.is_partitioned(),
        names_clusters(ranked, n as int),
        covers(q, ds, ranked, n as int, t),
    ensures
        closer_than(probe_result(q, ds, ranked, n), t) == closer_than(
            offer_all(vacant_slots(), stored_neighbors(q, ds, ds.n_vectors as nat)),
            t,
        ),
{
    let all = ds.n_vectors as int;
    lemma_stored_are_probed(q, ds, ranked, n, t, None);
    lemma_offer_all_closer(vacant_slots(), probe(q, ds, ranked, n), t);
    lemma_offer_all_closer(vacant_slots(), stored_neighbors(q, ds, all as nat), t);
}

proof fn lemma_offer_all_counted(slots: Seq<Neighbor>, ns: Seq<Neighbor>, t: int, only: Option<u8>)
    requires
        slots.len() > 0,
        closer_than(slots, t) + closer_than(ns, t) <= slots.len(),
    ensures
        counted(offer_all(slots, ns), t, only) == counted(slots, t, only) + counted(ns, t, only),
    decreases ns.len(),
{
    if ns.len() > 0 {
        let front = ns.drop_last();
        lemma_offer_all_counted(slots, front, t, only);
        lemma_offer_all_closer(slots, front, t);
        lemma_offer_all_len(slots, front);
        lemma_offer_counted(offer_all(slots, front), ns.last(), t, only);
    }
}

/// Where everything offered is closer than `t`, what is held is vacant or closer than `t`.
proof fn lemma_held_are_close(ns: Seq<Neighbor>, t: int)
    requires
        forall|i: int| 0 <= i < ns.len() ==> (#[trigger] ns[i]).dist < t,
    ensures
        forall|i: int|
            0 <= i < 5 ==> (#[trigger] offer_all(vacant_slots(), ns)[i]).dist < t || offer_all(
                vacant_slots(),
                ns,
            )[i] == vacant(),
    decreases ns.len(),
{
    if ns.len() > 0 {
        let front = ns.drop_last();
        assert(forall|i: int| 0 <= i < front.len() ==> #[trigger] front[i] == ns[i]);
        lemma_held_are_close(front, t);
        lemma_offer_all_len(vacant_slots(), front);
        lemma_worst_slot(offer_all(vacant_slots(), front));
    }
}

/// How often a label stands among slots that are vacant or closer than `t`.
proof fn lemma_label_count(slots: Seq<Neighbor>, t: int, l: u8)
    requires
        t <= u64::MAX,
        forall|i: int|
            0 <= i < slots.len() ==> (#[trigger] slots[i]).dist < t || slots[i] == vacant(),
    ensures
        slot_labels(slots).to_multiset().count(l) == counted(slots, t, Some(l)) + if l == 0 {
            slots.len() - closer_than(slots, t)
        } else {
            0
        },
    decreases slots.len(),
{
    broadcast use vstd::seq_lib::group_to_multiset_ensures;

    let labels = slot_labels(slots);
    if slots.len() == 0 {
        assert(labels =~= Seq::empty());
    } else {
        let front = slots.drop_last();
        assert(forall|i: int| 0 <= i < front.len() ==> #[trigger] front[i] == slots[i]);
        lemma_label_count(front, t, l);
        assert(labels =~= slot_labels(front).push(slots.last().label));
        to_multiset_build(slot_labels(front), slots.last().label);
        assert(slots.last() == slots[slots.len() - 1]);
    }
}

/// `t` separates the five closest of `ns` from the others, or is beyond all where there are
/// fewer.
pub open spec fn separates(ns: Seq<Neighbor>, t: int) -> bool {
    &&& t <= u64::MAX
    &&& closer_than(ns, t) == if ns.len() < 5 {
        ns.len()
    } else {
        5
    }
}

/// Some distance separates the five closest of `ns` from the others.
pub open spec fn is_separable(ns: Seq<Neighbor>) -> bool {
    exists|t: int| #[trigger] separates(ns, t)
}

/// Where `t` separates what is offered, the labels held are those closer than `t`.
pub proof fn lemma_labels_held(ns: Seq<Neighbor>, t: int, l: u8)
    requires
        separates(ns, t),
    ensures
        slot_labels(offer_all(vacant_slots(), ns)).to_multiset().count(l) == counted(
            ns,
            t,
            Some(l),
        ) + if l == 0 {
            5 - closer_than(ns, t)
        } else {
            0
        },
{
    let held = offer_all(vacant_slots(), ns);
    lemma_vacant_counted(t, None);
    lemma_offer_all_len(vacant_slots(), ns);
    lemma_offer_all_counted(vacant_slots(), ns, t, Some(l));
    lemma_offer_all_closer(vacant_slots(), ns, t);
    lemma_closer_than_bounds(held, t);
    lemma_closer_than_bounds(ns, t);
    assert forall|i: int| 0 <= i < held.len() implies (#[trigger] held[i]).dist < t || held[i]
        == vacant() by {
        if closer_than(ns, t) == 5 {
            if held[i].dist >= t {
                assert(closer_than(held, t) < held.len());
            }
        } else {
            assert forall|j: int| 0 <= j < ns.len() implies (#[trigger] ns[j]).dist < t by {
                if ns[j].dist >= t {
                    assert(closer_than(ns, t) < ns.len());
                }
            }
            lemma_held_are_close(ns, t);
        }
    }
    lemma_label_count(held, t, l);
    lemma_vacant_counted(t, Some(l));
}

/// Frauds are counted by their label.
pub proof fn lemma_frauds_are_labels(labels: Seq<u8>, n: nat)
    requires
        n <= labels.len(),
    ensures
        frauds_upto(labels, n) == labels.take(n as int).to_multiset().count(1),
    decreases n,
{
    broadcast use vstd::seq_lib::group_to_multiset_ensures;

    if n == 0 {
        assert(labels.take(0) =~= Seq::empty());
    } else {
        lemma_frauds_are_labels(labels, (n - 1) as nat);
        to_multiset_build(labels.take(n - 1), labels[n - 1]);
        assert(labels.take(n - 1).push(labels[n - 1]) =~= labels.take(n as int));
    }
}

/// Two answers hold the same labels, in whatever order, and so the same number of frauds.
pub open spec fn same_labels(a: Seq<Neighbor>, b: Seq<Neighbor>) -> bool {
    &&& slot_labels(a).to_multiset() == slot_labels(b).to_multiset()
    &&& frauds(slot_labels(a)) == frauds(slot_labels(b))
}

/// Offers that count alike below what separates them leave the same labels.
proof fn lemma_same_labels(a: Seq<Neighbor>, b: Seq<Neighbor>, t: int)
    requires
        separates(a, t),
        separates(b, t),
        closer_than(a, t) == closer_than(b, t),
        forall|l: u8| #[trigger] counted(a, t, Some(l)) == counted(b, t, Some(l)),
    ensures
        same_labels(offer_all(vacant_slots(), a), offer_all(vacant_slots(), b)),
{
    let x = slot_labels(offer_all(vacant_slots(), a));
    let y = slot_labels(offer_all(vacant_slots(), b));
    assert forall|l: u8| #[trigger] x.to_multiset().count(l) == y.to_multiset().count(l) by {
        lemma_labels_held(a, t, l);
        lemma_labels_held(b, t, l);
        assert(counted(a, t, Some(l)) == counted(b, t, Some(l)));
    }
    assert(x.to_multiset() =~= y.to_multiset());
    lemma_frauds_are_labels(x, x.len());
    lemma_frauds_are_labels(y, y.len());
    assert(x.take(x.len() as int) =~= x);
    assert(y.take(y.len() as int) =~= y);
}

/// What is probed stands at a position of a reference.
proof fn lemma_probe_positions(
    q: Seq<i16>,
    ds: &Dataset,
    ranked: Seq<(u32, u32)>,
    n: nat,
    j: int,
) -> (g: int)
    requires
        ds.is_partitioned(),
        names_clusters(ranked, n as int),
        0 <= j < probe(q, ds, ranked, n).len(),
    ensures
        0 <= g < ds.n_vectors,
        probe(q, ds, ranked, n)[j] == neighbor_at(q, ds, g),
    decreases n,
{
    let m = (n - 1) as nat;
    let front = probe(q, ds, ranked, m);
    if j < front.len() {
        lemma_probe_positions(q, ds, ranked, m, j)
    } else {
        let c = ranked[m as int].1 as int;
        lemma_offsets_ascend(ds, c + 1, 1024);
        lemma_offsets_ascend(ds, 0, c);
        ds.offsets@[c] + (j - front.len())
    }
}

/// If `t` separates the five closest references from the others, and the scanned clusters cover
/// what is closer than `t`, then scanning them finds the labels that comparing the query with
/// every reference finds.
pub proof fn law_probing_agrees_on_labels(
    q: Seq<i16>,
    ds: &Dataset,
    ranked: Seq<(u32, u32)>,
    n: nat,
    t: int,
)
    requires
        ds.is_partitioned(),
        names_clusters(ranked, n as int),
        separates(stored_neighbors(q, ds, ds.n_vectors as nat), t),
        covers(q, ds, ranked, n as int, t),
    ensures
        same_labels(
            probe_result(q, ds, ranked, n),
            offer_all(vacant_slots(), stored_neighbors(q, ds, ds.n_vectors as nat)),
        ),
{
    let stored = stored_neighbors(q, ds, ds.n_vectors as nat);
    let probed = probe(q, ds, ranked, n);
    lemma_stored_are_probed(q, ds, ranked, n, t, None);
    lemma_closer_than_bounds(stored, t);
    lemma_closer_than_bounds(probed, t);
    if ds.n_vectors < 5 {
        assert forall|i: int| 0 <= i < stored.len() implies (#[trigger] stored[i]).dist < t by {
            if stored[i].dist >= t {
                assert(closer_than(stored, t) < stored.len());
            }
        }
        assert forall|j: int| 0 <= j < probed.len() implies (#[trigger] probed[j]).dist < t by {
            let g = lemma_probe_positions(q, ds, ranked, n, j);
            assert(stored[g].dist < t);
        }
    }
    assert(separates(probed, t));
    assert forall|l: u8| #[trigger] counted(probed, t, Some(l)) == counted(stored, t, Some(l)) by {
        lemma_stored_are_probed(q, ds, ranked, n, t, Some(l));
    }
    lemma_same_labels(probed, stored, t);
}

/// A ranking of the clusters names distinct ones.
pub proof fn law_rankings_name_clusters(keys: Seq<u32>, ranked: Seq<(u32, u32)>)
    requires
        keys.len() == K,
        is_ranking(keys, NPROBE_REFINE as nat, ranked),
    ensures
        ranked.len() == NPROBE_REFINE,
        names_clusters(ranked, NPROBE_REFINE as int),
{
}

/// `v` lies in the bounding box of cluster `c`.
pub open spec fn box_holds(ds: &Dataset, c: int, v: Seq<i16>) -> bool {
    forall|d: int|
        0 <= d < DIM ==> ds.bbox_min@[14 * c + d] <= (#[trigger] v[d]) <= ds.bbox_max@[14 * c + d]
}

/// The vector at position `g` lies in the bounding box of cluster `c`.
pub open spec fn in_box(ds: &Dataset, c: int, g: int) -> bool {
    box_holds(ds, c, vector_at(ds.blocks@, g))
}

proof fn lemma_box_bound_upto(q: Seq<i16>, ds: &Dataset, c: int, v: Seq<i16>, n: nat)
    requires
        n <= DIM,
        box_holds(ds, c, v),
    ensures
        bbox_distance_upto(q, ds, c, n) <= distance_upto(q, v, n),
    decreases n,
{
    if n > 0 {
        lemma_box_bound_upto(q, ds, c, v, (n - 1) as nat);
        let lo = ds.bbox_min@[14 * c + n - 1] as int;
        let hi = ds.bbox_max@[14 * c + n - 1] as int;
        let y = v[n - 1] as int;
        let x = q[n - 1] as int;
        assert(lo <= y <= hi);
        let e = excess(x, lo, hi);
        let d = x - y;
        assert(e * e <= d * d) by (nonlinear_arith)
            requires
                0 <= e <= d || 0 <= e <= -d,
        ;
    }
}

/// The distance to a cluster's bounding box is a lower bound of the distance to each vector in
/// the box.
pub proof fn law_box_distance_is_a_lower_bound(q: Seq<i16>, ds: &Dataset, c: int, v: Seq<i16>)
    requires
        box_holds(ds, c, v),
    ensures
        bbox_distance_upto(q, ds, c, DIM as nat) <= distance(q, v),
{
    lemma_box_bound_upto(q, ds, c, v, DIM as nat);
}

/// The point of cluster `c`'s bounding box that is closest to `q`: each component is moved to the
/// nearest bound where it lies outside.
pub open spec fn clamped(q: Seq<i16>, ds: &Dataset, c: int) -> Seq<i16> {
    Seq::new(
        DIM as nat,
        |d: int|
            if q[d] < ds.bbox_min@[14 * c + d] {
                ds.bbox_min@[14 * c + d]
            } else if q[d] > ds.bbox_max@[14 * c + d] {
                ds.bbox_max@[14 * c + d]
            } else {
                q[d]
            },
    )
}

/// The bounding box of cluster `c` is not empty.
pub open spec fn is_proper_box(ds: &Dataset, c: int) -> bool {
    forall|d: int| 0 <= d < DIM ==> #[trigger] ds.bbox_min@[14 * c + d] <= ds.bbox_max@[14 * c + d]
}

proof fn lemma_box_reached_upto(q: Seq<i16>, ds: &Dataset, c: int, n: nat)
    requires
        n <= DIM,
        is_proper_box(ds, c),
    ensures
        bbox_distance_upto(q, ds, c, n) == distance_upto(q, clamped(q, ds, c), n),
    decreases n,
{
    if n > 0 {
        lemma_box_reached_upto(q, ds, c, (n - 1) as nat);
        let d = n - 1;
        let lo = ds.bbox_min@[14 * c + d] as int;
        let hi = ds.bbox_max@[14 * c + d] as int;
        assert(lo <= hi);
        let x = q[d] as int;
        let y = clamped(q, ds, c)[d] as int;
        let e = excess(x, lo, hi);
        assert(14 * c + n - 1 == 14 * c + d);
        assert(e * e == (x - y) * (x - y)) by (nonlinear_arith)
            requires
                e == x - y || e == y - x,
        ;
    }
}

/// The bound is reached: the closest point of a box that is not empty lies in the box, exactly as
/// far away as the box.
pub proof fn law_box_distance_is_reached(q: Seq<i16>, ds: &Dataset, c: int)
    requires
        is_proper_box(ds, c),
    ensures
        box_holds(ds, c, clamped(q, ds, c)),
        bbox_distance_upto(q, ds, c, DIM as nat) == distance(q, clamped(q, ds, c)),
{
    assert forall|d: int| 0 <= d < DIM implies ds.bbox_min@[14 * c + d] <= (#[trigger] clamped(
        q,
        ds,
        c,
    )[d]) <= ds.bbox_max@[14 * c + d] by {
        assert(ds.bbox_min@[14 * c + d] <= ds.bbox_max@[14 * c + d]);
    }
    lemma_box_reached_upto(q, ds, c, DIM as nat);
}

proof fn lemma_box_zero_upto(q: Seq<i16>, ds: &Dataset, c: int, n: nat)
    ensures
        bbox_distance_upto(q, ds, c, n) >= 0,
        bbox_distance_upto(q, ds, c, n) == 0 <==> forall|d: int|
            0 <= d < n ==> ds.bbox_min@[14 * c + d] <= (#[trigger] q[d]) <= ds.bbox_max@[14 * c
                + d],
    decreases n,
{
    if n > 0 {
        let m = (n - 1) as nat;
        lemma_box_zero_upto(q, ds, c, m);
        let d = n - 1;
        let lo = ds.bbox_min@[14 * c + d] as int;
        let hi = ds.bbox_max@[14 * c + d] as int;
        let x = q[d] as int;
        let e = excess(x, lo, hi);
        assert(14 * c + n - 1 == 14 * c + d);
        assert(e * e >= 0) by (nonlinear_arith);
        assert(e * e == 0 <==> e == 0) by (nonlinear_arith);
        assert(bbox_distance_upto(q, ds, c, n) == bbox_distance_upto(q, ds, c, m) + e * e);
        assert(e == 0 <==> lo <= x <= hi);
        if bbox_distance_upto(q, ds, c, n) == 0 {
            assert forall|k: int| 0 <= k < n implies ds.bbox_min@[14 * c + k] <= (#[trigger] q[k])
                <= ds.bbox_max@[14 * c + k] by {
                if k == d {
                    assert(lo <= x <= hi);
                }
            }
        }
        if forall|k: int|
            0 <= k < n ==> ds.bbox_min@[14 * c + k] <= (#[trigger] q[k]) <= ds.bbox_max@[14 * c
                + k] {
            assert(ds.bbox_min@[14 * c + d] <= q[d] <= ds.bbox_max@[14 * c + d]);
        }
    }
}

/// A box is at no distance exactly where the query lies in it.
pub proof fn law_box_distance_is_zero_inside(q: Seq<i16>, ds: &Dataset, c: int)
    ensures
        bbox_distance_upto(q, ds, c, DIM as nat) >= 0,
        bbox_distance_upto(q, ds, c, DIM as nat) == 0 <==> box_holds(ds, c, q),
{
    lemma_box_zero_upto(q, ds, c, DIM as nat);
}

/// The cluster to which a position belongs.
proof fn lemma_cluster_of(ds: &Dataset, g: int, c: int) -> (o: int)
    requires
        ds.is_partitioned(),
        0 <= c <= 1024,
        0 <= g < ds.offsets@[c],
    ensures
        0 <= o < c,
        ds.in_cluster(o, g),
    decreases c,
{
    if ds.offsets@[c - 1] <= g {
        c - 1
    } else {
        lemma_cluster_of(ds, g, c - 1)
    }
}

/// Clusters whose bounding boxes are no closer than `t` need not be scanned to find what is
/// closer than `t`.
pub proof fn law_far_boxes_may_be_skipped(
    q: Seq<i16>,
    ds: &Dataset,
    ranked: Seq<(u32, u32)>,
    n: nat,
    t: int,
)
    requires
        ds.is_partitioned(),
        names_clusters(ranked, n as int),
        boxes_enclose(ds),
        forall|c: int|
            0 <= c < K && !is_scanned(ranked, n as int, c)
                ==> #[trigger] bbox_distance_upto(q, ds, c, DIM as nat) >= t,
    ensures
        covers(q, ds, ranked, n as int, t),
        closer_than(probe_result(q, ds, ranked, n), t) == closer_than(
            offer_all(vacant_slots(), stored_neighbors(q, ds, ds.n_vectors as nat)),
            t,
        ),
{
    assert forall|g: int|
        0 <= g < ds.n_vectors && (#[trigger] neighbor_at(q, ds, g)).dist < t implies is_probed(
        ds,
        ranked,
        n as int,
        g,
    ) by {
        let c = lemma_cluster_of(ds, g, 1024);
        law_box_distance_is_a_lower_bound(q, ds, c, vector_at(ds.blocks@, g));
        lemma_distance_bound(q, vector_at(ds.blocks@, g), DIM as nat);
        assert(bbox_distance_upto(q, ds, c, DIM as nat) < t);
        let i = choose|i: int| 0 <= i < n && (#[trigger] ranked[i]).1 == c;
        assert(ds.in_cluster(ranked[i].1 as int, g));
    }
    law_probing_is_exact_where_it_covers(q, ds, ranked, n, t);
}

/// Every vector lies in the bounding box of its cluster.
pub open spec fn boxes_enclose(ds: &Dataset) -> bool {
    forall|c: int, g: int| 0 <= c < K && #[trigger] ds.in_cluster(c, g) ==> in_box(ds, c, g)
}

/// Every vector of a cluster that was not probed lies in the cluster's bounding box.
spec fn boxes_enclose_rest(ds: &Dataset, ranked: Seq<(u32, u32)>, n: int) -> bool {
    forall|c: int, g: int|
        0 <= c < K && !is_scanned(ranked, n, c) && #[trigger] ds.in_cluster(c, g) ==> in_box(
            ds,
            c,
            g,
        )
}

/// The probed clusters, and behind them those of the first `c` that were not probed.
spec fn visit_order(ranked: Seq<(u32, u32)>, n: int, c: nat) -> Seq<(u32, u32)>
    decreases c,
{
    if c == 0 {
        ranked.take(n)
    } else {
        let before = visit_order(ranked, n, (c - 1) as nat);
        if is_scanned(ranked, n, c - 1) {
            before
        } else {
            before.push((0, (c - 1) as u32))
        }
    }
}

/// The order of visits names distinct clusters, and among them each of the first `c`.
proof fn lemma_visit_order(ranked: Seq<(u32, u32)>, n: int, c: nat)
    requires
        names_clusters(ranked, n),
        c <= K,
    ensures
        names_clusters(visit_order(ranked, n, c), visit_order(ranked, n, c).len() as int),
        forall|k: int|
            0 <= k < c ==> #[trigger] is_scanned(
                visit_order(ranked, n, c),
                visit_order(ranked, n, c).len() as int,
                k,
            ),
        visit_order(ranked, n, c).len() >= n,
        visit_order(ranked, n, c).take(n) == ranked.take(n),
        forall|i: int|
            n <= i < visit_order(ranked, n, c).len() ==> (#[trigger] visit_order(
                ranked,
                n,
                c,
            )[i]).1 < c && !is_scanned(ranked, n, visit_order(ranked, n, c)[i].1 as int),
    decreases c,
{
    if c == 0 {
        assert(ranked.take(n).take(n) =~= ranked.take(n));
    } else {
        let before = visit_order(ranked, n, (c - 1) as nat);
        let order = visit_order(ranked, n, c);
        lemma_visit_order(ranked, n, (c - 1) as nat);
        if is_scanned(ranked, n, c - 1) {
            let i = choose|i: int| 0 <= i < n && (#[trigger] ranked[i]).1 == c - 1;
            assert(order[i] == order.take(n)[i]);
            assert(order[i] == ranked.take(n)[i]);
        } else {
            assert(order.take(n) =~= before.take(n));
            assert(order[order.len() - 1].1 == c - 1);
            assert forall|i: int| 0 <= i < before.len() implies (#[trigger] order[i]).1 != c
                - 1 by {
                assert(order[i] == before[i]);
                if i < n {
                    assert(before.take(n)[i] == ranked.take(n)[i]);
                    assert(before[i] == ranked[i]);
                }
            }
            assert forall|k: int| 0 <= k < c implies #[trigger] is_scanned(
                order,
                order.len() as int,
                k,
            ) by {
                if k < c - 1 {
                    assert(is_scanned(before, before.len() as int, k));
                    let i = choose|i: int|
                        0 <= i < before.len() && (#[trigger] before[i]).1 == k;
                    assert(order[i].1 == k);
                }
            }
            assert(forall|i: int| 0 <= i < before.len() ==> #[trigger] order[i] == before[i]);
        }
    }
}

/// Probing depends on the first entries only.
proof fn lemma_probe_prefix(
    q: Seq<i16>,
    ds: &Dataset,
    a: Seq<(u32, u32)>,
    b: Seq<(u32, u32)>,
    n: nat,
)
    requires
        n <= a.len(),
        n <= b.len(),
        a.take(n as int) == b.take(n as int),
    ensures
        probe(q, ds, a, n) == probe(q, ds, b, n),
    decreases n,
{
    if n > 0 {
        assert(a.take(n - 1) =~= a.take(n as int).take(n - 1));
        assert(b.take(n - 1) =~= b.take(n as int).take(n - 1));
        lemma_probe_prefix(q, ds, a, b, (n - 1) as nat);
        assert(a.take(n as int)[n - 1] == b.take(n as int)[n - 1]);
    }
}

/// What is no closer than the worst neighbour held changes nothing.
proof fn lemma_offers_ignored(slots: Seq<Neighbor>, ns: Seq<Neighbor>)
    requires
        forall|i: int| 0 <= i < ns.len() ==> (#[trigger] ns[i]).dist >= worst_dist(slots),
    ensures
        offer_all(slots, ns) == slots,
    decreases ns.len(),
{
    if ns.len() > 0 {
        let front = ns.drop_last();
        assert(forall|i: int| 0 <= i < front.len() ==> #[trigger] front[i] == ns[i]);
        lemma_offers_ignored(slots, front);
        assert(ns.last() == ns[ns.len() - 1]);
    }
}

/// Repairing is as good as scanning the clusters that were not probed.
proof fn lemma_repair_is_probing(
    q: Seq<i16>,
    ds: &Dataset,
    ranked: Seq<(u32, u32)>,
    n: nat,
    c: nat,
)
    requires
        names_clusters(ranked, n as int),
        boxes_enclose_rest(ds, ranked, n as int),
        c <= K,
    ensures
        repair(q, ds, ranked, n, c) == probe_result(
            q,
            ds,
            visit_order(ranked, n as int, c),
            visit_order(ranked, n as int, c).len(),
        ),
    decreases c,
{
    let order = visit_order(ranked, n as int, c);
    lemma_visit_order(ranked, n as int, c);
    if c == 0 {
        assert(order.take(n as int) =~= ranked.take(n as int));
        lemma_probe_prefix(q, ds, order, ranked, n);
    } else {
        let k = c - 1;
        let before = visit_order(ranked, n as int, k as nat);
        let held = repair(q, ds, ranked, n, k as nat);
        lemma_repair_is_probing(q, ds, ranked, n, k as nat);
        if !is_scanned(ranked, n as int, k) {
            let span = cluster_span(q, ds, k);
            assert(order.take(before.len() as int) =~= before);
            assert(before.take(before.len() as int) =~= before);
            lemma_probe_prefix(q, ds, order, before, before.len());
            assert(order[order.len() - 1].1 == k);
            lemma_offer_all_concat(vacant_slots(), probe(q, ds, before, before.len()), span);
            assert(probe_result(q, ds, order, order.len()) == offer_all(held, span));
            let bound = bbox_distance_upto(q, ds, k, DIM as nat);
            if bound >= worst_dist(held) {
                assert forall|j: int| 0 <= j < span.len() implies (#[trigger] span[j]).dist
                    >= worst_dist(held) by {
                    let g = ds.offsets@[k] + j;
                    assert(ds.in_cluster(k, g));
                    law_box_distance_is_a_lower_bound(q, ds, k, vector_at(ds.blocks@, g));
                    lemma_distance_bound(q, vector_at(ds.blocks@, g), DIM as nat);
                }
                lemma_offers_ignored(held, span);
            }
        }
    }
}

/// The whole order of visits covers everything.
proof fn lemma_visits_cover(
    q: Seq<i16>,
    ds: &Dataset,
    ranked: Seq<(u32, u32)>,
    n: int,
    t: int,
)
    requires
        ds.is_partitioned(),
        names_clusters(ranked, n),
    ensures
        covers(
            q,
            ds,
            visit_order(ranked, n, K as nat),
            visit_order(ranked, n, K as nat).len() as int,
            t,
        ),
{
    let order = visit_order(ranked, n, K as nat);
    lemma_visit_order(ranked, n, K as nat);
    assert forall|g: int|
        0 <= g < ds.n_vectors && (#[trigger] neighbor_at(q, ds, g)).dist < t implies is_probed(
        ds,
        order,
        order.len() as int,
        g,
    ) by {
        let c = lemma_cluster_of(ds, g, 1024);
        assert(is_scanned(order, order.len() as int, c));
        let i = choose|i: int| 0 <= i < order.len() && (#[trigger] order[i]).1 == c;
        assert(ds.in_cluster(order[i].1 as int, g));
    }
}

/// Where boxes enclose what was not probed, a repaired answer is that of brute force.
proof fn lemma_repair_is_exact(
    q: Seq<i16>,
    ds: &Dataset,
    ranked: Seq<(u32, u32)>,
    n: nat,
    t: int,
)
    requires
        ds.is_partitioned(),
        names_clusters(ranked, n as int),
        boxes_enclose_rest(ds, ranked, n as int),
    ensures
        closer_than(repair(q, ds, ranked, n, K as nat), t) == closer_than(
            offer_all(vacant_slots(), stored_neighbors(q, ds, ds.n_vectors as nat)),
            t,
        ),
        separates(stored_neighbors(q, ds, ds.n_vectors as nat), t) ==> same_labels(
            repair(q, ds, ranked, n, K as nat),
            offer_all(vacant_slots(), stored_neighbors(q, ds, ds.n_vectors as nat)),
        ),
{
    let order = visit_order(ranked, n as int, K as nat);
    lemma_visit_order(ranked, n as int, K as nat);
    lemma_repair_is_probing(q, ds, ranked, n, K as nat);
    lemma_visits_cover(q, ds, ranked, n as int, t);
    law_probing_is_exact_where_it_covers(q, ds, order, order.len(), t);
    if separates(stored_neighbors(q, ds, ds.n_vectors as nat), t) {
        law_probing_agrees_on_labels(q, ds, order, order.len(), t);
    }
}

/// Where boxes enclose their clusters, a search holds the distances that brute force holds:
/// below every bound there are as many.
pub proof fn law_search_holds_the_closest(
    q: Seq<i16>,
    ds: &Dataset,
    keys: Seq<u32>,
    ranked: Seq<(u32, u32)>,
    t: int,
)
    requires
        ds.is_partitioned(),
        boxes_enclose(ds),
        keys.len() == K,
        is_ranking(keys, NPROBE_REFINE as nat, ranked),
    ensures
        closer_than(search_result(q, ds, ranked), t) == closer_than(
            offer_all(vacant_slots(), stored_neighbors(q, ds, ds.n_vectors as nat)),
            t,
        ),
{
    law_rankings_name_clusters(keys, ranked);
    lemma_repair_is_exact(q, ds, ranked, probes(q, ds, ranked), t);
}

/// Where boxes enclose their clusters and the five closest references are separated from the
/// others, a search finds the labels that brute force finds, and so as many frauds.
pub proof fn law_search_agrees_with_brute_force(
    q: Seq<i16>,
    ds: &Dataset,
    keys: Seq<u32>,
    ranked: Seq<(u32, u32)>,
)
    requires
        ds.is_partitioned(),
        boxes_enclose(ds),
        keys.len() == K,
        is_ranking(keys, NPROBE_REFINE as nat, ranked),
        is_separable(stored_neighbors(q, ds, ds.n_vectors as nat)),
    ensures
        same_labels(
            search_result(q, ds, ranked),
            offer_all(vacant_slots(), stored_neighbors(q, ds, ds.n_vectors as nat)),
        ),
{
    let t = choose|t: int| #[trigger]
        separates(stored_neighbors(q, ds, ds.n_vectors as nat), t);
    law_rankings_name_clusters(keys, ranked);
    lemma_repair_is_exact(q, ds, ranked, probes(q, ds, ranked), t);
}

/// No two of `ns` are equally far.
pub open spec fn differ_pairwise(ns: Seq<Neighbor>) -> bool {
    forall|i: int, j: int|
        0 <= i < j < ns.len() ==> (#[trigger] ns[i]).dist != (#[trigger] ns[j]).dist
}

/// From one bound to the next, at most one more is closer.
proof fn lemma_closer_step(ns: Seq<Neighbor>, t: int)
    requires
        differ_pairwise(ns),
    ensures
        closer_than(ns, t) <= closer_than(ns, t + 1) <= closer_than(ns, t) + 1,
        (forall|i: int| 0 <= i < ns.len() ==> (#[trigger] ns[i]).dist != t) ==> closer_than(
            ns,
            t + 1,
        ) == closer_than(ns, t),
    decreases ns.len(),
{
    if ns.len() > 0 {
        let front = ns.drop_last();
        assert(forall|i: int| 0 <= i < front.len() ==> #[trigger] front[i] == ns[i]);
        assert(ns.last() == ns[ns.len() - 1]);
        lemma_closer_step(front, t);
    }
}

/// Every smaller number of closest ones is reached by some bound.
proof fn lemma_closer_reached(ns: Seq<Neighbor>, t: int, m: nat)
    requires
        differ_pairwise(ns),
        0 <= t,
        m <= closer_than(ns, t),
    ensures
        exists|u: int| u <= t && #[trigger] closer_than(ns, u) == m,
    decreases t,
{
    if closer_than(ns, t) != m {
        if t == 0 {
            lemma_none_counted(ns, 0, None);
        } else {
            lemma_closer_step(ns, t - 1);
            lemma_closer_reached(ns, t - 1, m);
        }
    }
}

/// Where no two references are equally far, the five closest are separated from the others.
pub proof fn law_distinct_distances_separate(q: Seq<i16>, ds: &Dataset, n: nat)
    requires
        differ_pairwise(stored_neighbors(q, ds, n)),
    ensures
        is_separable(stored_neighbors(q, ds, n)),
{
    let ns = stored_neighbors(q, ds, n);
    let top = u64::MAX as int;
    assert forall|i: int| 0 <= i < ns.len() implies (#[trigger] ns[i]).dist < top by {
        lemma_distance_bound(q, vector_at(ds.blocks@, i), DIM as nat);
    }
    lemma_closer_than_bounds(ns, top);
    let m: nat = if ns.len() < 5 {
        ns.len()
    } else {
        5
    };
    lemma_closer_reached(ns, top, m);
    let u = choose|u: int| u <= top && #[trigger] closer_than(ns, u) == m;
    assert(separates(ns, u));
}

/// Where the probed clusters hold every reference and no two references are equally far, a search
/// finds the labels that brute force finds, whether its first answer was refined or not, and
/// whatever the boxes hold.
pub proof fn law_covering_search_agrees_with_brute_force(
    q: Seq<i16>,
    ds: &Dataset,
    keys: Seq<u32>,
    ranked: Seq<(u32, u32)>,
)
    requires
        ds.is_partitioned(),
        keys.len() == K,
        is_ranking(keys, NPROBE_REFINE as nat, ranked),
        forall|g: int|
            0 <= g < ds.n_vectors ==> #[trigger] is_probed(
                ds,
                ranked,
                probes(q, ds, ranked) as int,
                g,
            ),
        differ_pairwise(stored_neighbors(q, ds, ds.n_vectors as nat)),
    ensures
        same_labels(
            search_result(q, ds, ranked),
            offer_all(vacant_slots(), stored_neighbors(q, ds, ds.n_vectors as nat)),
        ),
{
    let n = probes(q, ds, ranked);
    law_rankings_name_clusters(keys, ranked);
    law_distinct_distances_separate(q, ds, ds.n_vectors as nat);
    let t = choose|t: int| #[trigger]
        separates(stored_neighbors(q, ds, ds.n_vectors as nat), t);
    assert forall|c: int, g: int|
        0 <= c < K && !is_scanned(ranked, n as int, c) && #[trigger] ds.in_cluster(
            c,
            g,
        ) implies in_box(ds, c, g) by {
        lemma_offsets_ascend(ds, 0, c);
        lemma_offsets_ascend(ds, c + 1, 1024);
        assert(is_probed(ds, ranked, n as int, g));
        let i = choose|i: int| 0 <= i < n && ds.in_cluster((#[trigger] ranked[i]).1 as int, g);
        let o = ranked[i].1 as int;
        if o < c {
            lemma_offsets_ascend(ds, o + 1, c);
        } else if c < o {
            lemma_offsets_ascend(ds, c + 1, o);
        }
    }
    lemma_repair_is_exact(q, ds, ranked, n, t);
}

/// In a built index every vector lies in the bounding box of its cluster.
pub proof fn law_built_boxes_enclose(
    ds: &Dataset,
    vectors: Seq<[i16; DIM]>,
    labels: Seq<u8>,
    assign: Seq<u32>,
    c: int,
    g: int,
)
    requires
        is_built_from(ds, vectors, labels, assign),
        0 <= c < K,
        ds.in_cluster(c, g),
    ensures
        in_box(ds, c, g),
{
    let a = ds.offsets@[c] as int;
    let b = ds.offsets@[c + 1] as int;
    assert(is_cluster_box(ds.offsets@, ds.blocks@, ds.bbox_min@, ds.bbox_max@, c));
    assert forall|d: int| 0 <= d < DIM implies ds.bbox_min@[14 * c + d] <= (#[trigger] vector_at(
        ds.blocks@,
        g,
    )[d]) <= ds.bbox_max@[14 * c + d] by {
        assert(ds.bbox_min@[14 * c + d] == box_low(ds.blocks@, a, b, d));
        assert(ds.bbox_max@[14 * c + d] == box_high(ds.blocks@, a, b, d));
        law_boxes_enclose(ds.blocks@, a, b, g, d);
    }
}

/// Every position up to the number of references is that of a reference.
pub proof fn law_positions_cover(assign: Seq<u32>, g: int)
    requires
        is_assignment(assign),
        0 <= g < assign.len(),
    ensures
        exists|i: int| 0 <= i < assign.len() && #[trigger] position(assign, i) == g,
{
    let n = assign.len() as int;
    let all = set_int_range(0, n);
    let f = |i: int| position(assign, i);
    let image = all.map(f);
    lemma_int_range(0, n);
    assert forall|x: int, y: int|
        all.contains(x) && all.contains(y) && #[trigger] f(x) == #[trigger] f(y) implies x == y by {
        if x < y {
            law_positions_distinct(assign, x, y);
        } else if y < x {
            law_positions_distinct(assign, y, x);
        }
    }
    lemma_map_size(all, image, f);
    assert forall|p: int| image.contains(p) implies all.contains(p) by {
        let i = choose|i: int| all.contains(i) && f(i) == p;
        law_position_in_cluster(assign, i);
    }
    lemma_subset_equality(image, all);
    assert(image.contains(g));
    let i = choose|i: int| all.contains(i) && f(i) == g;
    assert(position(assign, i) == g);
}

/// The references that count.
pub open spec fn near_references(
    q: Seq<i16>,
    vectors: Seq<[i16; DIM]>,
    labels: Seq<u8>,
    n: int,
    t: int,
    only: Option<u8>,
) -> Set<int> {
    Set::new(
        |i: int|
            0 <= i < n && counts(reference_neighbor(q, vectors, labels, i), t, only),
    )
}

pub proof fn lemma_near_references(
    q: Seq<i16>,
    vectors: Seq<[i16; DIM]>,
    labels: Seq<u8>,
    n: int,
    t: int,
    only: Option<u8>,
)
    requires
        0 <= n <= vectors.len(),
    ensures
        near_references(q, vectors, labels, n, t, only).finite(),
        counted(reference_neighbors(q, vectors, labels).take(n), t, only)
            == near_references(q, vectors, labels, n, t, only).len(),
    decreases n,
{
    let all = reference_neighbors(q, vectors, labels);
    let here = near_references(q, vectors, labels, n, t, only);
    if n == 0 {
        assert(here =~= Set::empty());
    } else {
        let before = near_references(q, vectors, labels, n - 1, t, only);
        lemma_near_references(q, vectors, labels, n - 1, t, only);
        assert(all.take(n).drop_last() =~= all.take(n - 1));
        if counts(all[n - 1], t, only) {
            assert(here =~= before.insert(n - 1));
        } else {
            assert(here =~= before);
        }
    }
}

/// As many references count as stored vectors do.
proof fn lemma_references_counted(
    q: Seq<i16>,
    ds: &Dataset,
    vectors: Seq<[i16; DIM]>,
    labels: Seq<u8>,
    assign: Seq<u32>,
    t: int,
    only: Option<u8>,
)
    requires
        is_built_from(ds, vectors, labels, assign),
    ensures
        counted(reference_neighbors(q, vectors, labels), t, only) == counted(
            stored_neighbors(q, ds, ds.n_vectors as nat),
            t,
            only,
        ),
{
    let n = vectors.len() as int;
    let refs = near_references(q, vectors, labels, n, t, only);
    let stored = near(q, ds, 0, n, t, only);
    let f = |i: int| position(assign, i);
    lemma_near_references(q, vectors, labels, n, t, only);
    assert(reference_neighbors(q, vectors, labels).take(n) =~= reference_neighbors(
        q,
        vectors,
        labels,
    ));
    lemma_near(q, ds, 0, n, t, only);
    lemma_stored_counted(q, ds, n as nat, t, only);
    assert forall|x: int, y: int|
        refs.contains(x) && refs.contains(y) && #[trigger] f(x) == #[trigger] f(y) implies x
        == y by {
        if x < y {
            law_positions_distinct(assign, x, y);
        } else if y < x {
            law_positions_distinct(assign, y, x);
        }
    }
    assert forall|g: int| refs.map(f).contains(g) implies stored.contains(g) by {
        let i = choose|i: int| refs.contains(i) && f(i) == g;
        law_position_in_cluster(assign, i);
        assert(is_in_place(
            vectors,
            labels,
            assign,
            ds.blocks@,
            ds.labels@,
            ds.orig_ids@,
            i,
        ));
    }
    assert forall|g: int| stored.contains(g) implies refs.map(f).contains(g) by {
        law_positions_cover(assign, g);
        let i = choose|i: int| 0 <= i < assign.len() && #[trigger] position(assign, i) == g;
        assert(is_in_place(
            vectors,
            labels,
            assign,
            ds.blocks@,
            ds.labels@,
            ds.orig_ids@,
            i,
        ));
        assert(refs.contains(i));
        assert(f(i) == g);
    }
    assert(refs.map(f) =~= stored);
    lemma_map_size(refs, stored, f);
}

/// A built index keeps the references: brute force over the index holds the distances that brute
/// force over the references holds.
pub proof fn law_built_index_keeps_references(
    q: Seq<i16>,
    ds: &Dataset,
    vectors: Seq<[i16; DIM]>,
    labels: Seq<u8>,
    assign: Seq<u32>,
    t: int,
)
    requires
        is_built_from(ds, vectors, labels, assign),
    ensures
        closer_than(reference_neighbors(q, vectors, labels), t) == closer_than(
            stored_neighbors(q, ds, ds.n_vectors as nat),
            t,
        ),
        closer_than(offer_all(vacant_slots(), reference_neighbors(q, vectors, labels)), t)
            == closer_than(
            offer_all(vacant_slots(), stored_neighbors(q, ds, ds.n_vectors as nat)),
            t,
        ),
{
    let refs = reference_neighbors(q, vectors, labels);
    let stored = stored_neighbors(q, ds, ds.n_vectors as nat);
    lemma_references_counted(q, ds, vectors, labels, assign, t, None);
    lemma_offer_all_closer(vacant_slots(), refs, t);
    lemma_offer_all_closer(vacant_slots(), stored, t);
}

/// A search in a built index finds the labels that brute force over the references finds, and so
/// as many frauds, if the five closest references (or all, where there are fewer) are separated
/// from the others.
pub proof fn law_search_agrees_with_references(
    q: Seq<i16>,
    ds: &Dataset,
    vectors: Seq<[i16; DIM]>,
    labels: Seq<u8>,
    assign: Seq<u32>,
    keys: Seq<u32>,
    ranked: Seq<(u32, u32)>,
)
    requires
        is_built_from(ds, vectors, labels, assign),
        keys.len() == K,
        is_ranking(keys, NPROBE_REFINE as nat, ranked),
        is_separable(reference_neighbors(q, vectors, labels)),
    ensures
        same_labels(
            search_result(q, ds, ranked),
            offer_all(vacant_slots(), reference_neighbors(q, vectors, labels)),
        ),
{
    let refs = reference_neighbors(q, vectors, labels);
    let stored = stored_neighbors(q, ds, ds.n_vectors as nat);
    let t = choose|t: int| #[trigger] separates(refs, t);
    law_built_index_keeps_references(q, ds, vectors, labels, assign, t);
    assert(separates(stored, t));
    assert forall|c: int, g: int| 0 <= c < K && #[trigger] ds.in_cluster(c, g) implies in_box(
        ds,
        c,
        g,
    ) by {
        law_built_boxes_enclose(ds, vectors, labels, assign, c, g);
    }
    law_search_agrees_with_brute_force(q, ds, keys, ranked);
    assert forall|l: u8| #[trigger] counted(refs, t, Some(l)) == counted(stored, t, Some(l)) by {
        lemma_references_counted(q, ds, vectors, labels, assign, t, Some(l));
    }
    lemma_same_labels(refs, stored, t);
}

} // verus!
