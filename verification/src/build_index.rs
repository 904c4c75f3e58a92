//! Building an index: references grouped by cluster, block by block.

use vstd::prelude::*;
use crate::index::{blocks_for, cell, read_vector, vector_at, Dataset};
use crate::ivf::{DIM, K};
use crate::recall::{boxes_enclose, in_box, law_built_boxes_enclose};

verus! {

/// How many of the first `n` references are assigned to cluster `c`.
pub open spec fn assigned_to(assign: Seq<u32>, n: nat, c: int) -> nat
    decreases n,
{
    if n == 0 {
        0
    } else {
        assigned_to(assign, (n - 1) as nat, c) + if assign[n - 1] == c {
            1nat
        } else {
            0
        }
    }
}

/// How many of the first `n` references are assigned to a cluster before `c`.
pub open spec fn assigned_before(assign: Seq<u32>, n: nat, c: int) -> nat
    decreases n,
{
    if n == 0 {
        0
    } else {
        assigned_before(assign, (n - 1) as nat, c) + if assign[n - 1] < c {
            1nat
        } else {
            0
        }
    }
}

/// Where reference `i` is stored: behind the clusters before its own, and behind the references
/// before it in its own.
pub open spec fn position(assign: Seq<u32>, i: int) -> int {
    (assigned_before(assign, assign.len(), assign[i] as int) + assigned_to(
        assign,
        i as nat,
        assign[i] as int,
    )) as int
}

/// Every reference is assigned to one of the clusters.
pub open spec fn is_assignment(assign: Seq<u32>) -> bool {
    forall|i: int| 0 <= i < assign.len() ==> (#[trigger] assign[i]) < K
}

pub proof fn lemma_assigned_step(assign: Seq<u32>, n: nat, c: int)
    ensures
        assigned_before(assign, n, c + 1) == assigned_before(assign, n, c) + assigned_to(
            assign,
            n,
            c,
        ),
        assigned_before(assign, n, c) + assigned_to(assign, n, c) <= n,
    decreases n,
{
    if n > 0 {
        lemma_assigned_step(assign, (n - 1) as nat, c);
    }
}

proof fn lemma_assigned_none(assign: Seq<u32>, n: nat)
    ensures
        assigned_before(assign, n, 0) == 0,
    decreases n,
{
    if n > 0 {
        lemma_assigned_none(assign, (n - 1) as nat);
    }
}

proof fn lemma_assigned_all(assign: Seq<u32>, n: nat)
    requires
        is_assignment(assign),
        n <= assign.len(),
    ensures
        assigned_before(assign, n, K as int) == n,
    decreases n,
{
    if n > 0 {
        lemma_assigned_all(assign, (n - 1) as nat);
    }
}

proof fn lemma_assigned_grows(assign: Seq<u32>, m: nat, n: nat, c: int)
    requires
        m <= n,
    ensures
        assigned_to(assign, m, c) <= assigned_to(assign, n, c),
        assigned_before(assign, m, c) <= assigned_before(assign, n, c),
    decreases n,
{
    if m < n {
        lemma_assigned_grows(assign, m, (n - 1) as nat, c);
    }
}

proof fn lemma_assigned_before_ascends(assign: Seq<u32>, n: nat, a: int, b: int)
    requires
        a <= b,
    ensures
        assigned_before(assign, n, a) <= assigned_before(assign, n, b),
    decreases n,
{
    if n > 0 {
        lemma_assigned_before_ascends(assign, (n - 1) as nat, a, b);
    }
}

/// A reference is stored within its cluster.
pub proof fn law_position_in_cluster(assign: Seq<u32>, i: int)
    requires
        is_assignment(assign),
        0 <= i < assign.len(),
    ensures
        assigned_before(assign, assign.len(), assign[i] as int) <= position(assign, i)
            < assigned_before(assign, assign.len(), assign[i] + 1) <= assign.len(),
{
    let c = assign[i] as int;
    lemma_assigned_grows(assign, (i + 1) as nat, assign.len(), c);
    lemma_assigned_step(assign, assign.len(), c);
}

/// References of one cluster are stored in their order, and no two references share a position.
pub proof fn law_positions_distinct(assign: Seq<u32>, i: int, j: int)
    requires
        is_assignment(assign),
        0 <= i < j < assign.len(),
    ensures
        position(assign, i) != position(assign, j),
        assign[i] == assign[j] ==> position(assign, i) < position(assign, j),
{
    let a = assign[i] as int;
    let b = assign[j] as int;
    if a == b {
        lemma_assigned_grows(assign, (i + 1) as nat, j as nat, a);
    } else {
        law_position_in_cluster(assign, i);
        law_position_in_cluster(assign, j);
        if a < b {
            lemma_assigned_before_ascends(assign, assign.len(), a + 1, b);
        } else {
            lemma_assigned_before_ascends(assign, assign.len(), b + 1, a);
        }
    }
}

/// The references of an earlier cluster are stored before those of a later one.
pub proof fn law_positions_follow_the_clusters(assign: Seq<u32>, i: int, j: int)
    requires
        is_assignment(assign),
        0 <= i < assign.len(),
        0 <= j < assign.len(),
        assign[i] < assign[j],
    ensures
        0 <= position(assign, i) < position(assign, j) < assign.len(),
{
    law_position_in_cluster(assign, i);
    law_position_in_cluster(assign, j);
    lemma_assigned_before_ascends(assign, assign.len(), assign[i] + 1, assign[j] as int);
}

/// What is counted of a cluster are the references assigned to it, and to those before it.
pub proof fn law_assigned_references_are_counted(assign: Seq<u32>, n: nat, c: int)
    requires
        n <= assign.len(),
    ensures
        assigned_to(assign, n, c) == assign.take(n as int).filter(|a: u32| a == c).len(),
        assigned_before(assign, n, c) == assign.take(n as int).filter(|a: u32| a < c).len(),
    decreases n,
{
    reveal(Seq::filter);
    let some = assign.take(n as int);
    if n > 0 {
        law_assigned_references_are_counted(assign, (n - 1) as nat, c);
        assert(some.drop_last() =~= assign.take(n - 1));
        assert(some.last() == assign[n - 1]);
    }
}

/// Counts the references of each cluster.
pub fn cluster_sizes(assign: &[u32]) -> (counts: Vec<u32>)
    requires
        is_assignment(assign@),
        assign@.len() <= u32::MAX,
    ensures
        counts@.len() == K,
        forall|c: int|
            0 <= c < K ==> #[trigger] counts@[c] == assigned_to(assign@, assign@.len(), c),
{
    let mut counts: Vec<u32> = vec![0u32; K];
    let mut i: usize = 0;
    while i < assign.len()
        invariant
            i <= assign@.len() <= u32::MAX,
            is_assignment(assign@),
            counts@.len() == K,
            forall|c: int|
                0 <= c < K ==> #[trigger] counts@[c] == assigned_to(assign@, i as nat, c),
        decreases assign@.len() - i,
    {
        let c: usize = assign[i] as usize;
        proof {
            lemma_assigned_step(assign@, i as nat, c as int);
        }
        let size: u32 = counts[c];
        counts[c] = size + 1;
        i += 1;
    }
    counts
}

/// Where each cluster begins, and where the last one ends.
pub fn cluster_offsets(assign: &[u32]) -> (offsets: Vec<u32>)
    requires
        is_assignment(assign@),
        assign@.len() <= u32::MAX,
    ensures
        offsets@.len() == K + 1,
        forall|c: int|
            0 <= c <= K ==> #[trigger] offsets@[c] == assigned_before(assign@, assign@.len(), c),
        offsets@[0] == 0,
        offsets@[K as int] == assign@.len(),
{
    let counts = cluster_sizes(assign);
    let mut offsets: Vec<u32> = Vec::with_capacity(K + 1);
    offsets.push(0);
    proof {
        lemma_assigned_none(assign@, assign@.len());
        lemma_assigned_all(assign@, assign@.len());
    }
    let mut c: usize = 0;
    while c < K
        invariant
            c <= K,
            assign@.len() <= u32::MAX,
            counts@.len() == K,
            forall|j: int|
                0 <= j < K ==> #[trigger] counts@[j] == assigned_to(assign@, assign@.len(), j),
            offsets@.len() == c + 1,
            forall|j: int|
                0 <= j <= c ==> #[trigger] offsets@[j] == assigned_before(
                    assign@,
                    assign@.len(),
                    j,
                ),
        decreases K - c,
    {
        proof {
            lemma_assigned_step(assign@, assign@.len(), c as int);
        }
        let end: u32 = offsets[c] + counts[c];
        offsets.push(end);
        c += 1;
    }
    offsets
}

/// The vector of zeros.
pub open spec fn zero_vector() -> Seq<i16> {
    Seq::new(DIM as nat, |d: int| 0i16)
}

/// Reference `i` stands at its position.
pub open spec fn is_in_place(
    vectors: Seq<[i16; DIM]>,
    labels: Seq<u8>,
    assign: Seq<u32>,
    blocks: Seq<i16>,
    stored_labels: Seq<u8>,
    orig_ids: Seq<u32>,
    i: int,
) -> bool {
    let g = position(assign, i);
    &&& vector_at(blocks, g) == vectors[i]@
    &&& stored_labels[g] == labels[i]
    &&& orig_ids[g] == i
}

/// Nothing but zeros stands at position `g`.
pub open spec fn is_padding(
    blocks: Seq<i16>,
    stored_labels: Seq<u8>,
    orig_ids: Seq<u32>,
    g: int,
) -> bool {
    &&& vector_at(blocks, g) == zero_vector()
    &&& stored_labels[g] == 0
    &&& orig_ids[g] == 0
}

/// Each reference stands at its position, and what lies behind the references is zero.
pub open spec fn is_arrangement(
    vectors: Seq<[i16; DIM]>,
    labels: Seq<u8>,
    assign: Seq<u32>,
    blocks: Seq<i16>,
    stored_labels: Seq<u8>,
    orig_ids: Seq<u32>,
) -> bool {
    let n = vectors.len() as int;
    &&& blocks.len() == 224 * blocks_for(n)
    &&& stored_labels.len() == 16 * blocks_for(n)
    &&& orig_ids.len() == 16 * blocks_for(n)
    &&& forall|i: int|
        0 <= i < n ==> #[trigger] is_in_place(
            vectors,
            labels,
            assign,
            blocks,
            stored_labels,
            orig_ids,
            i,
        )
    &&& forall|g: int|
        n <= g < 16 * blocks_for(n) ==> #[trigger] is_padding(blocks, stored_labels, orig_ids, g)
}

/// A cell tells its block, row and lane.
proof fn lemma_cell_parts(g: int, d: int)
    requires
        0 <= g,
        0 <= d < 14,
    ensures
        cell(g, d) / 224 == g / 16,
        (cell(g, d) - 224 * (g / 16)) / 16 == d,
        cell(g, d) - 224 * (g / 16) - 16 * d == g % 16,
{
}

/// No two components share a cell.
proof fn lemma_cells_distinct(g: int, d: int, h: int, e: int)
    requires
        0 <= g,
        0 <= h,
        0 <= d < 14,
        0 <= e < 14,
        g != h || d != e,
    ensures
        cell(g, d) != cell(h, e),
{
    lemma_cell_parts(g, d);
    lemma_cell_parts(h, e);
}

/// Writes a vector at a position.
#[verifier::spinoff_prover]
fn store_vector(blocks: &mut Vec<i16>, pos: usize, v: &[i16; DIM])
    requires
        pos < 16 * (old(blocks)@.len() / 224),
        old(blocks)@.len() % 224 == 0,
    ensures
        final(blocks)@.len() == old(blocks)@.len(),
        vector_at(final(blocks)@, pos as int) == v@,
        forall|g: int|
            0 <= g < 16 * (old(blocks)@.len() / 224) && g != pos ==> #[trigger] vector_at(
                final(blocks)@,
                g,
            ) == vector_at(old(blocks)@, g),
{
    assert(blocks.len() == blocks@.len());
    let block_base: usize = (pos / 16) * 224;
    let lane: usize = pos % 16;
    let mut d: usize = 0;
    while d < DIM
        invariant
            d <= DIM,
            block_base == 224 * (pos / 16),
            lane == pos % 16,
            pos < 16 * (blocks@.len() / 224),
            blocks@.len() % 224 == 0,
            blocks@.len() == old(blocks)@.len(),
            blocks@.len() <= usize::MAX,
            forall|e: int| 0 <= e < d ==> #[trigger] blocks@[cell(pos as int, e)] == v@[e],
            forall|g: int, e: int|
                0 <= g < 16 * (blocks@.len() / 224) && g != pos && 0 <= e < 14
                    ==> #[trigger] blocks@[cell(g, e)] == old(blocks)@[cell(g, e)],
        decreases DIM - d,
    {
        let ghost before = blocks@;
        assert(cell(pos as int, d as int) == block_base + d * 16 + lane);
        blocks[block_base + d * 16 + lane] = v[d];
        proof {
            assert forall|e: int| 0 <= e < d + 1 implies #[trigger] blocks@[cell(pos as int, e)]
                == v@[e] by {
                if e < d {
                    lemma_cells_distinct(pos as int, e, pos as int, d as int);
                }
            }
            assert forall|g: int, e: int|
                0 <= g < 16 * (blocks@.len() / 224) && g != pos && 0 <= e < 14 implies
                #[trigger] blocks@[cell(g, e)] == old(blocks)@[cell(g, e)] by {
                lemma_cells_distinct(g, e, pos as int, d as int);
                assert(before[cell(g, e)] == old(blocks)@[cell(g, e)]);
            }
        }
        d += 1;
    }
    assert(vector_at(blocks@, pos as int) =~= v@);
    assert forall|g: int| 0 <= g < 16 * (blocks@.len() / 224) && g != pos implies
        #[trigger] vector_at(blocks@, g) == vector_at(old(blocks)@, g) by {
        assert forall|e: int| 0 <= e < 14 implies vector_at(blocks@, g)[e] == vector_at(
            old(blocks)@,
            g,
        )[e] by {
            assert(blocks@[cell(g, e)] == old(blocks)@[cell(g, e)]);
        }
        assert(vector_at(blocks@, g) =~= vector_at(old(blocks)@, g));
    }
}

/// The references in storage order.
pub struct Arrangement {
    /// The vectors, block by block.
    pub blocks: Vec<i16>,
    /// Per position, the label.
    pub labels: Vec<u8>,
    /// Per position, the place among the references.
    pub orig_ids: Vec<u32>,
}

/// Stores each reference at its position.
#[verifier::spinoff_prover]
pub fn arrange(
    vectors: &[[i16; DIM]],
    labels: &[u8],
    assign: &[u32],
    offsets: &[u32],
) -> (a: Arrangement)
    requires
        is_assignment(assign@),
        assign@.len() <= u32::MAX,
        vectors@.len() == assign@.len(),
        labels@.len() >= assign@.len(),
        224 * blocks_for(assign@.len() as int) <= usize::MAX,
        offsets@.len() == K + 1,
        forall|c: int|
            0 <= c <= K ==> #[trigger] offsets@[c] == assigned_before(assign@, assign@.len(), c),
    ensures
        is_arrangement(vectors@, labels@, assign@, a.blocks@, a.labels@, a.orig_ids@),
{
    let n: usize = vectors.len();
    let n_blocks: usize = if n == 0 {
        0
    } else {
        (n - 1) / 16 + 1
    };
    assert(n_blocks == blocks_for(n as int));
    let padded_n: usize = n_blocks * 16;
    let mut blocks: Vec<i16> = vec![0i16; n_blocks * 224];
    let mut stored: Vec<u8> = vec![0u8; padded_n];
    let mut orig_ids: Vec<u32> = vec![0u32; padded_n];
    let mut cursor: Vec<u32> = vstd::slice::slice_to_vec(offsets);
    assert forall|g: int| n <= g < padded_n implies #[trigger] is_padding(
        blocks@,
        stored@,
        orig_ids@,
        g,
    ) by {
        assert(vector_at(blocks@, g) =~= zero_vector());
    }
    let mut i: usize = 0;
    while i < n
        invariant
            i <= n,
            n == vectors@.len() == assign@.len(),
            n <= labels@.len(),
            n <= u32::MAX,
            is_assignment(assign@),
            n_blocks == blocks_for(n as int),
            padded_n == 16 * n_blocks,
            blocks@.len() == 224 * n_blocks,
            stored@.len() == padded_n,
            orig_ids@.len() == padded_n,
            cursor@.len() == K + 1,
            forall|c: int|
                0 <= c < K ==> #[trigger] cursor@[c] == assigned_before(assign@, n as nat, c)
                    + assigned_to(assign@, i as nat, c),
            forall|j: int|
                0 <= j < i ==> #[trigger] is_in_place(
                    vectors@,
                    labels@,
                    assign@,
                    blocks@,
                    stored@,
                    orig_ids@,
                    j,
                ),
            forall|g: int|
                n <= g < padded_n ==> #[trigger] is_padding(blocks@, stored@, orig_ids@, g),
        decreases n - i,
    {
        let c: usize = assign[i] as usize;
        let pos: usize = cursor[c] as usize;
        proof {
            assert(pos == position(assign@, i as int));
            law_position_in_cluster(assign@, i as int);
        }
        cursor[c] = pos as u32 + 1;
        let ghost blocks_before = blocks@;
        let ghost stored_before = stored@;
        let ghost ids_before = orig_ids@;
        let v = vectors[i];
        store_vector(&mut blocks, pos, &v);
        stored[pos] = labels[i];
        orig_ids[pos] = i as u32;
        proof {
            assert forall|j: int| 0 <= j < i + 1 implies #[trigger] is_in_place(
                vectors@,
                labels@,
                assign@,
                blocks@,
                stored@,
                orig_ids@,
                j,
            ) by {
                law_position_in_cluster(assign@, j);
                if j < i {
                    let g = position(assign@, j);
                    law_positions_distinct(assign@, j, i as int);
                    assert(is_in_place(
                        vectors@,
                        labels@,
                        assign@,
                        blocks_before,
                        stored_before,
                        ids_before,
                        j,
                    ));
                    assert(vector_at(blocks@, g) == vector_at(blocks_before, g));
                }
            }
            assert forall|g: int| n <= g < padded_n implies #[trigger] is_padding(
                blocks@,
                stored@,
                orig_ids@,
                g,
            ) by {
                assert(is_padding(blocks_before, stored_before, ids_before, g));
                assert(vector_at(blocks@, g) == vector_at(blocks_before, g));
            }
        }
        i += 1;
    }
    Arrangement { blocks, labels: stored, orig_ids }
}

/// Least component `d` of the vectors at the positions from `a` up to `b`.
pub open spec fn box_low(blocks: Seq<i16>, a: int, b: int, d: int) -> i16
    decreases b - a,
{
    if b <= a {
        i16::MAX
    } else {
        let rest = box_low(blocks, a, b - 1, d);
        let x = vector_at(blocks, b - 1)[d];
        if x < rest {
            x
        } else {
            rest
        }
    }
}

/// Greatest component `d` of the vectors at the positions from `a` up to `b`.
pub open spec fn box_high(blocks: Seq<i16>, a: int, b: int, d: int) -> i16
    decreases b - a,
{
    if b <= a {
        i16::MIN
    } else {
        let rest = box_high(blocks, a, b - 1, d);
        let x = vector_at(blocks, b - 1)[d];
        if x > rest {
            x
        } else {
            rest
        }
    }
}

/// Every vector of a range lies between the range's least and greatest components.
pub proof fn law_boxes_enclose(blocks: Seq<i16>, a: int, b: int, g: int, d: int)
    requires
        a <= g < b,
        0 <= d < DIM,
    ensures
        box_low(blocks, a, b, d) <= vector_at(blocks, g)[d] <= box_high(blocks, a, b, d),
    decreases b - a,
{
    if g < b - 1 {
        law_boxes_enclose(blocks, a, b - 1, g, d);
    }
}

/// Widens one bounding box to take in a vector.
#[verifier::spinoff_prover]
fn widen_box(low: &mut Vec<i16>, high: &mut Vec<i16>, base: usize, v: &[i16; DIM])
    requires
        base + 14 <= old(low)@.len(),
        old(high)@.len() == old(low)@.len(),
    ensures
        final(low)@.len() == old(low)@.len(),
        final(high)@.len() == old(high)@.len(),
        forall|j: int|
            0 <= j < old(low)@.len() && !(base <= j < base + 14) ==> #[trigger] final(low)@[j]
                == old(low)@[j],
        forall|j: int|
            0 <= j < old(high)@.len() && !(base <= j < base + 14) ==> #[trigger] final(high)@[j]
                == old(high)@[j],
        forall|d: int|
            0 <= d < 14 ==> final(low)@[base + d] == if #[trigger] v@[d] < old(low)@[base + d] {
                v@[d]
            } else {
                old(low)@[base + d]
            },
        forall|d: int|
            0 <= d < 14 ==> final(high)@[base + d] == if #[trigger] v@[d] > old(high)@[base + d] {
                v@[d]
            } else {
                old(high)@[base + d]
            },
{
    assert(low.len() == low@.len());
    let mut d: usize = 0;
    while d < DIM
        invariant
            d <= DIM,
            base + 14 <= old(low)@.len() <= usize::MAX,
            low@.len() == old(low)@.len(),
            high@.len() == old(low)@.len(),
            old(high)@.len() == old(low)@.len(),
            forall|j: int|
                0 <= j < old(low)@.len() && !(base <= j < base + d) ==> #[trigger] low@[j] == old(
                    low,
                )@[j],
            forall|j: int|
                0 <= j < old(high)@.len() && !(base <= j < base + d) ==> #[trigger] high@[j] == old(
                    high,
                )@[j],
            forall|e: int|
                0 <= e < d ==> low@[base + e] == if #[trigger] v@[e] < old(low)@[base + e] {
                    v@[e]
                } else {
                    old(low)@[base + e]
                },
            forall|e: int|
                0 <= e < d ==> high@[base + e] == if #[trigger] v@[e] > old(high)@[base + e] {
                    v@[e]
                } else {
                    old(high)@[base + e]
                },
        decreases DIM - d,
    {
        let x: i16 = v[d];
        let mb: usize = base + d;
        if x < low[mb] {
            low[mb] = x;
        }
        if x > high[mb] {
            high[mb] = x;
        }
        d += 1;
    }
}

/// The fourteen entries from `base` on hold, per component, the least and the greatest value of the
/// vectors at the positions from `a` up to `b`.
pub open spec fn is_box(
    blocks: Seq<i16>,
    a: int,
    b: int,
    low: Seq<i16>,
    high: Seq<i16>,
    base: int,
) -> bool {
    &&& forall|d: int| 0 <= d < 14 ==> low[base + d] == #[trigger] box_low(blocks, a, b, d)
    &&& forall|d: int| 0 <= d < 14 ==> high[base + d] == #[trigger] box_high(blocks, a, b, d)
}

/// The bounding box of cluster `c` is right.
pub open spec fn is_cluster_box(
    offsets: Seq<u32>,
    blocks: Seq<i16>,
    low: Seq<i16>,
    high: Seq<i16>,
    c: int,
) -> bool {
    is_box(blocks, offsets[c] as int, offsets[c + 1] as int, low, high, 14 * c)
}

/// The bounding boxes of the first `clusters` clusters are right.
pub open spec fn are_boxes(
    offsets: Seq<u32>,
    blocks: Seq<i16>,
    low: Seq<i16>,
    high: Seq<i16>,
    clusters: int,
) -> bool {
    forall|c: int|
        0 <= c < clusters ==> #[trigger] is_cluster_box(offsets, blocks, low, high, c)
}

/// The components of a vector within whole blocks lie within them.
proof fn lemma_cell_in_range(g: int, len: int)
    requires
        0 <= g < 16 * (len / 224),
        0 <= len,
    ensures
        cell(g, 13) < len,
{
    let b = g / 16;
    assert(g % 16 <= 15);
    assert(b + 1 <= len / 224);
    assert(224 * (len / 224) <= len);
}

/// A box that takes in one more vector is the box of one more position.
proof fn lemma_box_step(
    blocks: Seq<i16>,
    s: int,
    p: int,
    low: Seq<i16>,
    high: Seq<i16>,
    new_low: Seq<i16>,
    new_high: Seq<i16>,
    base: int,
)
    requires
        s <= p,
        is_box(blocks, s, p, low, high, base),
        forall|d: int|
            0 <= d < 14 ==> new_low[base + d] == if #[trigger] vector_at(blocks, p)[d] < low[base
                + d] {
                vector_at(blocks, p)[d]
            } else {
                low[base + d]
            },
        forall|d: int|
            0 <= d < 14 ==> new_high[base + d] == if #[trigger] vector_at(blocks, p)[d]
                > high[base + d] {
                vector_at(blocks, p)[d]
            } else {
                high[base + d]
            },
    ensures
        is_box(blocks, s, p + 1, new_low, new_high, base),
{
    assert forall|d: int| 0 <= d < 14 implies new_low[base + d] == #[trigger] box_low(
        blocks,
        s,
        p + 1,
        d,
    ) by {
        let x = vector_at(blocks, p)[d];
        assert(low[base + d] == box_low(blocks, s, p, d));
    }
    assert forall|d: int| 0 <= d < 14 implies new_high[base + d] == #[trigger] box_high(
        blocks,
        s,
        p + 1,
        d,
    ) by {
        let x = vector_at(blocks, p)[d];
        assert(high[base + d] == box_high(blocks, s, p, d));
    }
}

/// The box of nothing holds the bounds of nothing.
proof fn lemma_empty_box(blocks: Seq<i16>, s: int, e: int, low: Seq<i16>, high: Seq<i16>, base: int)
    requires
        e <= s,
        forall|j: int| base <= j < base + 14 ==> #[trigger] low[j] == i16::MAX,
        forall|j: int| base <= j < base + 14 ==> #[trigger] high[j] == i16::MIN,
    ensures
        is_box(blocks, s, e, low, high, base),
{
}

/// Computes one bounding box, into entries that hold the bounds of nothing.
#[verifier::spinoff_prover]
fn cluster_box(
    blocks: &Vec<i16>,
    s: usize,
    e: usize,
    low: &mut Vec<i16>,
    high: &mut Vec<i16>,
    base: usize,
)
    requires
        e <= 16 * (blocks@.len() / 224),
        base + 14 <= old(low)@.len(),
        old(high)@.len() == old(low)@.len(),
        forall|j: int| base <= j < base + 14 ==> #[trigger] old(low)@[j] == i16::MAX,
        forall|j: int| base <= j < base + 14 ==> #[trigger] old(high)@[j] == i16::MIN,
    ensures
        final(low)@.len() == old(low)@.len(),
        final(high)@.len() == old(high)@.len(),
        is_box(blocks@, s as int, e as int, final(low)@, final(high)@, base as int),
        forall|j: int|
            0 <= j < old(low)@.len() && !(base <= j < base + 14) ==> #[trigger] final(low)@[j]
                == old(low)@[j],
        forall|j: int|
            0 <= j < old(high)@.len() && !(base <= j < base + 14) ==> #[trigger] final(high)@[j]
                == old(high)@[j],
{
    if e <= s {
        proof {
            lemma_empty_box(blocks@, s as int, e as int, low@, high@, base as int);
        }
        return ;
    }
    let mut pos: usize = s;
    proof {
        lemma_empty_box(blocks@, s as int, s as int, low@, high@, base as int);
    }
    while pos < e
        invariant
            s <= pos <= e,
            e <= 16 * (blocks@.len() / 224),
            base + 14 <= old(low)@.len(),
            old(high)@.len() == old(low)@.len(),
            low@.len() == old(low)@.len(),
            high@.len() == old(high)@.len(),
            is_box(blocks@, s as int, pos as int, low@, high@, base as int),
            forall|j: int|
                0 <= j < old(low)@.len() && !(base <= j < base + 14) ==> #[trigger] low@[j] == old(
                    low,
                )@[j],
            forall|j: int|
                0 <= j < old(high)@.len() && !(base <= j < base + 14) ==> #[trigger] high@[j]
                    == old(high)@[j],
        decreases e - pos,
    {
        proof {
            lemma_cell_in_range(pos as int, blocks@.len() as int);
        }
        let v = read_vector(blocks.as_slice(), pos);
        let ghost low_before = low@;
        let ghost high_before = high@;
        widen_box(low, high, base, &v);
        proof {
            lemma_box_step(
                blocks@,
                s as int,
                pos as int,
                low_before,
                high_before,
                low@,
                high@,
                base as int,
            );
        }
        pos += 1;
    }
}

/// A box stays right as long as its entries do not change.
proof fn lemma_box_frame(
    blocks: Seq<i16>,
    a: int,
    b: int,
    low: Seq<i16>,
    high: Seq<i16>,
    new_low: Seq<i16>,
    new_high: Seq<i16>,
    base: int,
)
    requires
        is_box(blocks, a, b, low, high, base),
        forall|j: int| base <= j < base + 14 ==> #[trigger] new_low[j] == low[j],
        forall|j: int| base <= j < base + 14 ==> #[trigger] new_high[j] == high[j],
    ensures
        is_box(blocks, a, b, new_low, new_high, base),
{
}

/// Computes the bounding box of each cluster.
#[verifier::spinoff_prover]
pub fn cluster_boxes(offsets: &[u32], blocks: &Vec<i16>) -> (boxes: (Vec<i16>, Vec<i16>))
    requires
        offsets@.len() == K + 1,
        forall|c: int| 0 <= c <= K ==> (#[trigger] offsets@[c]) <= 16 * (blocks@.len() / 224),
    ensures
        boxes.0@.len() == 14336,
        boxes.1@.len() == 14336,
        are_boxes(offsets@, blocks@, boxes.0@, boxes.1@, K as int),
{
    let mut low: Vec<i16> = vec![i16::MAX; 14336];
    let mut high: Vec<i16> = vec![i16::MIN; 14336];
    let mut c: usize = 0;
    while c < K
        invariant
            c <= K,
            offsets@.len() == K + 1,
            forall|j: int| 0 <= j <= K ==> (#[trigger] offsets@[j]) <= 16 * (blocks@.len() / 224),
            low@.len() == 14336,
            high@.len() == 14336,
            are_boxes(offsets@, blocks@, low@, high@, c as int),
            forall|j: int| 14 * c <= j < 14336 ==> #[trigger] low@[j] == i16::MAX,
            forall|j: int| 14 * c <= j < 14336 ==> #[trigger] high@[j] == i16::MIN,
        decreases K - c,
    {
        let ghost low_before = low@;
        let ghost high_before = high@;
        cluster_box(
            blocks,
            offsets[c] as usize,
            offsets[c + 1] as usize,
            &mut low,
            &mut high,
            14 * c,
        );
        proof {
            assert forall|b: int| 0 <= b < c + 1 implies #[trigger] is_cluster_box(
                offsets@,
                blocks@,
                low@,
                high@,
                b,
            ) by {
                if b < c {
                    assert(is_cluster_box(offsets@, blocks@, low_before, high_before, b));
                    lemma_box_frame(
                        blocks@,
                        offsets@[b] as int,
                        offsets@[b + 1] as int,
                        low_before,
                        high_before,
                        low@,
                        high@,
                        14 * b,
                    );
                }
            }
        }
        c += 1;
    }
    (low, high)
}

/// Turns centroids around: from one centroid after another to one component after another.
#[verifier::spinoff_prover]
pub fn transpose_centroids(centroids: &[u32]) -> (soa: Vec<u32>)
    requires
        centroids@.len() == 14336,
    ensures
        soa@.len() == 14336,
        forall|c: int, d: int|
            0 <= c < K && 0 <= d < DIM ==> #[trigger] soa@[1024 * d + c] == centroids@[14 * c + d],
{
    let mut soa: Vec<u32> = Vec::with_capacity(14336);
    let mut d: usize = 0;
    while d < DIM
        invariant
            d <= DIM,
            centroids@.len() == 14336,
            soa@.len() == 1024 * d,
            forall|c: int, e: int|
                0 <= c < K && 0 <= e < d ==> #[trigger] soa@[1024 * e + c] == centroids@[14 * c
                    + e],
        decreases DIM - d,
    {
        let mut c: usize = 0;
        while c < K
            invariant
                c <= K,
                d < DIM,
                centroids@.len() == 14336,
                soa@.len() == 1024 * d + c,
                forall|b: int, e: int|
                    0 <= b < K && 0 <= e < d ==> #[trigger] soa@[1024 * e + b] == centroids@[14 * b
                        + e],
                forall|b: int|
                    0 <= b < c ==> #[trigger] soa@[1024 * d + b] == centroids@[14 * b + d],
            decreases K - c,
        {
            soa.push(centroids[14 * c + d]);
            c += 1;
        }
        assert forall|b: int, e: int| 0 <= b < K && 0 <= e < d + 1 implies
            #[trigger] soa@[1024 * e + b] == centroids@[14 * b + e] by {
            if e == d {
                assert(soa@[1024 * d + b] == centroids@[14 * b + d]);
            }
        }
        d += 1;
    }
    soa
}

/// Offsets ascend from 0 to the number of references.
proof fn lemma_offsets(assign: Seq<u32>, offsets: Seq<u32>)
    requires
        is_assignment(assign),
        offsets.len() == K + 1,
        forall|c: int|
            0 <= c <= K ==> #[trigger] offsets[c] == assigned_before(assign, assign.len(), c),
    ensures
        offsets[0] == 0,
        offsets[1024] == assign.len(),
        forall|c: int| 0 <= c < 1024 ==> (#[trigger] offsets[c]) <= offsets[c + 1],
        forall|c: int| 0 <= c <= 1024 ==> (#[trigger] offsets[c]) <= assign.len(),
{
    let n = assign.len();
    lemma_assigned_none(assign, n);
    lemma_assigned_all(assign, n);
    assert(offsets[0] == assigned_before(assign, n, 0));
    assert(offsets[1024] == assigned_before(assign, n, 1024));
    assert forall|c: int| 0 <= c < 1024 implies (#[trigger] offsets[c]) <= offsets[c + 1] by {
        lemma_assigned_before_ascends(assign, n, c, c + 1);
    }
    assert forall|c: int| 0 <= c <= 1024 implies (#[trigger] offsets[c]) <= assign.len() by {
        lemma_assigned_before_ascends(assign, n, c, 1024);
    }
}

/// `ds` holds the references, grouped as they are assigned, and the bounding boxes of the groups.
pub open spec fn is_built_from(
    ds: &Dataset,
    vectors: Seq<[i16; DIM]>,
    labels: Seq<u8>,
    assign: Seq<u32>,
) -> bool {
    &&& is_assignment(assign)
    &&& vectors.len() == assign.len()
    &&& ds.n_vectors == vectors.len()
    &&& ds.n_blocks == blocks_for(vectors.len() as int)
    &&& ds.is_partitioned()
    &&& forall|c: int|
        0 <= c <= K ==> #[trigger] ds.offsets@[c] == assigned_before(assign, assign.len(), c)
    &&& is_arrangement(vectors, labels, assign, ds.blocks@, ds.labels@, ds.orig_ids@)
    &&& are_boxes(ds.offsets@, ds.blocks@, ds.bbox_min@, ds.bbox_max@, K as int)
}

/// Builds the data set of an assignment of references to clusters. `centroids` holds the bit
/// patterns of one centroid after another.
#[verifier::spinoff_prover]
pub fn build_dataset(
    vectors: &[[i16; DIM]],
    labels: &[u8],
    assign: &[u32],
    centroids: &[u32],
) -> (ds: Dataset)
    requires
        is_assignment(assign@),
        assign@.len() <= u32::MAX,
        vectors@.len() == assign@.len(),
        labels@.len() >= assign@.len(),
        224 * blocks_for(assign@.len() as int) <= usize::MAX,
        centroids@.len() == 14336,
    ensures
        ds.wf(),
        ds.clusters_in_range(),
        is_built_from(&ds, vectors@, labels@, assign@),
        boxes_enclose(&ds),
        forall|c: int, d: int|
            0 <= c < K && 0 <= d < DIM ==> #[trigger] ds.centroids@[1024 * d + c] == centroids@[14
                * c + d],
{
    let n: usize = vectors.len();
    let offsets = cluster_offsets(assign);
    proof {
        lemma_offsets(assign@, offsets@);
    }
    let a = arrange(vectors, labels, assign, offsets.as_slice());
    let (bbox_min, bbox_max) = cluster_boxes(offsets.as_slice(), &a.blocks);
    let soa = transpose_centroids(centroids);
    let n_blocks: usize = if n == 0 {
        0
    } else {
        (n - 1) / 16 + 1
    };
    let ds = Dataset {
        n_vectors: n,
        n_blocks,
        centroids: soa,
        bbox_min,
        bbox_max,
        offsets,
        blocks: a.blocks,
        labels: a.labels,
        orig_ids: a.orig_ids,
    };
    proof {
        assert forall|c: int| 0 <= c < 1024 implies #[trigger] ds.cluster_in_range(c) by {
            assert(ds.offsets@[c + 1] <= n);
        }
    }
    proof {
        assert(is_built_from(&ds, vectors@, labels@, assign@));
        assert forall|c: int, g: int| 0 <= c < K && #[trigger] ds.in_cluster(c, g) implies in_box(
            &ds,
            c,
            g,
        ) by {
            law_built_boxes_enclose(&ds, vectors@, labels@, assign@, c, g);
        }
    }
    ds
}

} // verus!
