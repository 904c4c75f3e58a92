//! Which clusters a query scans: the closest centroids, closest first.
//!
//! A distance is given by an integer key that orders as the distance does.

use vstd::prelude::*;

verus! {

/// Entry `c` is among the chosen.
pub open spec fn is_chosen(chosen: Seq<(u32, u32)>, c: int) -> bool {
    exists|i: int| 0 <= i < chosen.len() && (#[trigger] chosen[i]).1 == c
}

/// No chosen key exceeds `key`.
pub open spec fn none_above(chosen: Seq<(u32, u32)>, key: u32) -> bool {
    forall|i: int| 0 <= i < chosen.len() ==> (#[trigger] chosen[i]).0 <= key
}

/// `chosen` pairs distinct entries below `seen` with their keys, and every entry below `seen`
/// that is not chosen has a key at least as great as each chosen one.
pub open spec fn is_selection(keys: Seq<u32>, seen: int, chosen: Seq<(u32, u32)>) -> bool {
    &&& forall|i: int|
        0 <= i < chosen.len() ==> (#[trigger] chosen[i]).1 < seen && chosen[i].0
            == keys[chosen[i].1 as int]
    &&& forall|i: int, j: int|
        0 <= i < j < chosen.len() ==> (#[trigger] chosen[i]).1 != (#[trigger] chosen[j]).1
    &&& forall|c: int|
        0 <= c < seen && !#[trigger] is_chosen(chosen, c) ==> none_above(chosen, keys[c])
}

/// The keys do not decrease.
pub open spec fn is_ascending(chosen: Seq<(u32, u32)>) -> bool {
    forall|i: int, j: int|
        0 <= i <= j < chosen.len() ==> (#[trigger] chosen[i]).0 <= (#[trigger] chosen[j]).0
}

/// `ranked` holds the `take` entries with the least keys, least first. Which of several entries
/// with equal keys are taken, and in which order, is left open.
pub open spec fn is_ranking(keys: Seq<u32>, take: nat, ranked: Seq<(u32, u32)>) -> bool {
    &&& ranked.len() == if take < keys.len() {
        take
    } else {
        keys.len()
    }
    &&& is_selection(keys, keys.len() as int, ranked)
    &&& is_ascending(ranked)
}

/// Two entries of a selection may trade places.
proof fn lemma_selection_swap(keys: Seq<u32>, seen: int, s: Seq<(u32, u32)>, a: int, b: int)
    requires
        is_selection(keys, seen, s),
        0 <= a < b < s.len(),
    ensures
        is_selection(keys, seen, s.update(a, s[b]).update(b, s[a])),
{
    let t = s.update(a, s[b]).update(b, s[a]);
    assert forall|c: int| 0 <= c < seen && !#[trigger] is_chosen(t, c) implies none_above(
        t,
        keys[c],
    ) by {
        if is_chosen(s, c) {
            let i = choose|i: int| 0 <= i < s.len() && (#[trigger] s[i]).1 == c;
            if i == a {
                assert(t[b].1 == c);
            } else if i == b {
                assert(t[a].1 == c);
            } else {
                assert(t[i].1 == c);
            }
            assert(false);
        }
        assert(none_above(s, keys[c]));
        assert(s[a].0 <= keys[c] && s[b].0 <= keys[c]);
    }
}

/// Sorts a selection by key.
fn sort_by_key(chosen: &mut Vec<(u32, u32)>, keys: &[u32], seen: usize)
    requires
        is_selection(keys@, seen as int, old(chosen)@),
    ensures
        final(chosen)@.len() == old(chosen)@.len(),
        is_selection(keys@, seen as int, final(chosen)@),
        is_ascending(final(chosen)@),
{
    let n: usize = chosen.len();
    let mut i: usize = 0;
    while i < n
        invariant
            i <= n,
            n == chosen@.len(),
            n == old(chosen)@.len(),
            is_selection(keys@, seen as int, chosen@),
            is_ascending(chosen@.take(i as int)),
        decreases n - i,
    {
        let mut j: usize = i;
        proof {
            let front = chosen@.take(i as int);
            assert(forall|a: int, b: int|
                0 <= a <= b < i ==> front[a] == chosen@[a] && front[b] == chosen@[b]
                    && (#[trigger] chosen@[a]).0 <= (#[trigger] chosen@[b]).0);
        }
        while j > 0 && chosen[j].0 < chosen[j - 1].0
            invariant
                j <= i < n,
                n == chosen@.len(),
                is_selection(keys@, seen as int, chosen@),
                forall|a: int, b: int|
                    0 <= a <= b <= i && a != j && b != j ==> (#[trigger] chosen@[a]).0 <= (
                    #[trigger] chosen@[b]).0,
                forall|b: int| j < b <= i ==> chosen@[j as int].0 <= (#[trigger] chosen@[b]).0,
            decreases j,
        {
            let low = chosen[j];
            let high = chosen[j - 1];
            let ghost before = chosen@;
            chosen[j - 1] = low;
            chosen[j] = high;
            proof {
                lemma_selection_swap(keys@, seen as int, before, j - 1, j as int);
                assert(chosen@ =~= before.update(j - 1, before[j as int]).update(
                    j as int,
                    before[j - 1],
                ));
            }
            j -= 1;
        }
        i += 1;
        assert(is_ascending(chosen@.take(i as int)));
    }
    assert(chosen@.take(n as int) =~= chosen@);
}

/// Picks the `take` entries with the least keys, least first.
pub fn rank_centroids(keys: &[u32], take: usize) -> (ranked: Vec<(u32, u32)>)
    requires
        take > 0 || keys@.len() == 0,
        keys@.len() <= 0x1_0000_0000,
    ensures
        is_ranking(keys@, take as nat, ranked@),
{
    let n: usize = keys.len();
    let take: usize = if take < n {
        take
    } else {
        n
    };
    let mut out: Vec<(u32, u32)> = Vec::new();
    let mut i: usize = 0;
    while i < take
        invariant
            i <= take <= n,
            n == keys@.len(),
            n <= 0x1_0000_0000,
            out@.len() == i,
            forall|j: int| 0 <= j < i ==> (#[trigger] out@[j]).1 == j && out@[j].0 == keys@[j],
        decreases take - i,
    {
        out.push((keys[i], i as u32));
        i += 1;
    }
    assert forall|c: int| 0 <= c < take implies #[trigger] is_chosen(out@, c) by {
        assert(out@[c].1 == c);
    }
    sort_by_key(&mut out, keys, take);
    if take == 0 {
        return out;
    }
    let mut worst_pos: usize = take - 1;
    let mut ci: usize = take;
    while ci < n
        invariant
            0 < take <= ci <= n,
            n == keys@.len(),
            n <= 0x1_0000_0000,
            out@.len() == take,
            worst_pos < take,
            is_selection(keys@, ci as int, out@),
            forall|j: int| 0 <= j < take ==> (#[trigger] out@[j]).0 <= out@[worst_pos as int].0,
        decreases n - ci,
    {
        let ghost before = out@;
        if keys[ci] < out[worst_pos].0 {
            out[worst_pos] = (keys[ci], ci as u32);
            proof {
                lemma_replace(keys@, ci as int, before, worst_pos as int);
                assert(out@ =~= before.update(worst_pos as int, (keys@[ci as int], ci as u32)));
            }
            let mut wp: usize = 0;
            let mut i: usize = 1;
            while i < take
                invariant
                    0 < take,
                    1 <= i <= take,
                    wp < take,
                    out@.len() == take,
                    forall|j: int| 0 <= j < i ==> (#[trigger] out@[j]).0 <= out@[wp as int].0,
                decreases take - i,
            {
                if out[i].0 > out[wp].0 {
                    wp = i;
                }
                i += 1;
            }
            worst_pos = wp;
        } else {
            assert forall|c: int|
                0 <= c < ci + 1 && !#[trigger] is_chosen(out@, c) implies none_above(
                out@,
                keys@[c],
            ) by {}
        }
        ci += 1;
    }
    sort_by_key(&mut out, keys, n);
    out
}

/// The next entry takes the place of a chosen one with the greatest key, which exceeds its own.
proof fn lemma_replace(keys: Seq<u32>, seen: int, s: Seq<(u32, u32)>, w: int)
    requires
        is_selection(keys, seen, s),
        0 <= seen < keys.len(),
        seen <= u32::MAX,
        0 <= w < s.len(),
        none_above(s, s[w].0),
        keys[seen] < s[w].0,
    ensures
        is_selection(keys, seen + 1, s.update(w, (keys[seen], seen as u32))),
{
    let t = s.update(w, (keys[seen], seen as u32));
    assert forall|c: int| 0 <= c < seen + 1 && !#[trigger] is_chosen(t, c) implies none_above(
        t,
        keys[c],
    ) by {
        assert(t[w].1 == seen);
        if is_chosen(s, c) {
            let i = choose|i: int| 0 <= i < s.len() && (#[trigger] s[i]).1 == c;
            if i != w {
                assert(t[i].1 == c);
            }
            assert(keys[c] == s[w].0);
        } else {
            assert(none_above(s, keys[c]));
            assert(s[w].0 <= keys[c]);
        }
    }
}

/// A key that is not below this one stands for no distance that could be the least: it is the key
/// of the greatest finite number.
pub const NO_DISTANCE: u32 = 0x7f7f_ffff;

/// Entry `c` is the first of those with the least key.
pub open spec fn is_first_least(keys: Seq<u32>, c: int) -> bool {
    &&& 0 <= c < keys.len()
    &&& forall|j: int| 0 <= j < keys.len() ==> keys[c] <= #[trigger] keys[j]
    &&& forall|j: int| 0 <= j < c ==> keys[c] < #[trigger] keys[j]
}

/// The first entry with the least key, or 0 where no key is below that of [`NO_DISTANCE`].
pub fn nearest(keys: &[u32]) -> (c: usize)
    ensures
        if exists|j: int| 0 <= j < keys@.len() && #[trigger] keys@[j] < NO_DISTANCE {
            is_first_least(keys@, c as int)
        } else {
            c == 0
        },
{
    let mut best: usize = 0;
    let mut best_key: u32 = NO_DISTANCE;
    let mut c: usize = 0;
    while c < keys.len()
        invariant
            c <= keys@.len(),
            best_key <= NO_DISTANCE,
            forall|j: int| 0 <= j < c ==> best_key <= #[trigger] keys@[j] || keys@[j]
                >= NO_DISTANCE,
            best_key == NO_DISTANCE ==> best == 0,
            best_key < NO_DISTANCE ==> best < c && best_key == keys@[best as int] && forall|j: int|
                0 <= j < best ==> best_key < #[trigger] keys@[j],
        decreases keys@.len() - c,
    {
        if keys[c] < best_key {
            best_key = keys[c];
            best = c;
        }
        c += 1;
    }
    best
}

/// Where a running total first reaches a bound, or the last place where it never does. Totals and
/// bound are given by integer keys that order as they do.
pub fn first_reaching(totals: &[u64], bound: u64) -> (pick: usize)
    requires
        totals@.len() > 0,
    ensures
        pick < totals@.len(),
        forall|j: int| 0 <= j < pick ==> #[trigger] totals@[j] < bound,
        totals@[pick as int] >= bound || pick == totals@.len() - 1,
{
    let last: usize = totals.len() - 1;
    let mut s: usize = 0;
    while s < last && totals[s] < bound
        invariant
            s <= last,
            last == totals@.len() - 1,
            forall|j: int| 0 <= j < s ==> #[trigger] totals@[j] < bound,
        decreases last - s,
    {
        s += 1;
    }
    s
}

/// A ranking holds as many entries as it should, distinct ones with their own keys, in ascending
/// order, and no entry that is left out has a smaller key than one that is in.
pub proof fn law_rankings_hold_the_least(
    keys: Seq<u32>,
    take: nat,
    ranked: Seq<(u32, u32)>,
    i: int,
    j: int,
    c: int,
)
    requires
        is_ranking(keys, take, ranked),
        0 <= i < j < ranked.len(),
        0 <= c < keys.len(),
        forall|k: int| 0 <= k < ranked.len() ==> (#[trigger] ranked[k]).1 != c,
    ensures
        ranked.len() <= take,
        ranked.len() <= keys.len(),
        ranked.len() == take || ranked.len() == keys.len(),
        ranked[i].1 < keys.len(),
        ranked[i].0 == keys[ranked[i].1 as int],
        ranked[i].1 != ranked[j].1,
        ranked[i].0 <= ranked[j].0,
        ranked[j].0 <= keys[c],
{
    assert(!is_chosen(ranked, c));
}

} // verus!
