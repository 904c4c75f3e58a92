//! The pseudo-random numbers behind warm-up queries and training samples.

use vstd::prelude::*;
use crate::ivf::DIM;

verus! {

/// The generator's step: `s * 6364136223846793005 + 1442695040888963407`, modulo 2^64.
pub open spec fn lcg_step(s: u64) -> u64 {
    ((s * 6364136223846793005 + 1442695040888963407) % 0x1_0000_0000_0000_0000) as u64
}

/// The state after `n` steps.
pub open spec fn lcg_after(s: u64, n: nat) -> u64
    decreases n,
{
    if n == 0 {
        s
    } else {
        lcg_step(lcg_after(s, (n - 1) as nat))
    }
}

/// One step of the generator.
pub fn lcg(s: u64) -> (r: u64)
    ensures
        r == lcg_step(s),
{
    let m: u64 = s.wrapping_mul(6364136223846793005);
    let r: u64 = m.wrapping_add(1442695040888963407);
    proof {
        let p: int = s * 6364136223846793005;
        let q: int = p / 0x1_0000_0000_0000_0000;
        assert(p == q * 0x1_0000_0000_0000_0000 + m);
        assert((p + 1442695040888963407) % 0x1_0000_0000_0000_0000 == r as int);
    }
    r
}

/// The state with which warm-up starts.
pub const WARMUP_SEED: u64 = 0x9E37_79B9_7F4A_7C15;

/// Remainder with the sign of the dividend.
pub open spec fn signed_rem(x: int, m: int) -> int {
    if x >= 0 {
        x % m
    } else {
        -((-x) % m)
    }
}

/// The component drawn from a generator state: its top 16 bits, read as a signed number,
/// reduced by 20001 and shifted down by 10000.
pub open spec fn drawn_component(s: u64) -> int {
    let top = s as int / 0x1_0000_0000_0000;
    signed_rem(
        if top < 0x8000 {
            top
        } else {
            top - 0x1_0000
        },
        20_001,
    ) - 10_000
}

/// Draws one component from a generator state.
fn draw_component(s: u64) -> (x: i16)
    ensures
        x == drawn_component(s),
{
    let top: i32 = (s / 0x1_0000_0000_0000) as i32;
    let signed: i32 = if top < 0x8000 {
        top
    } else {
        top - 0x1_0000
    };
    let rem: i32 = if signed >= 0 {
        signed % 20_001
    } else {
        0 - (0 - signed) % 20_001
    };
    (rem - 10_000) as i16
}

/// Draws the next warm-up query; returns the generator state after it.
pub fn warmup_query(seed: u64) -> (r: ([i16; DIM], u64))
    ensures
        forall|d: int|
            0 <= d < DIM ==> r.0@[d] == drawn_component(#[trigger] lcg_after(seed, (d + 1) as nat)),
        r.1 == lcg_after(seed, DIM as nat),
{
    let mut q = [0i16; DIM];
    let mut state: u64 = seed;
    let mut d: usize = 0;
    while d < DIM
        invariant
            d <= DIM,
            state == lcg_after(seed, d as nat),
            forall|j: int|
                0 <= j < d ==> q@[j] == drawn_component(#[trigger] lcg_after(seed, (j + 1) as nat)),
        decreases DIM - d,
    {
        state = lcg(state);
        q[d] = draw_component(state);
        d += 1;
    }
    (q, state)
}

/// The state with which training starts.
pub const TRAINING_SEED: u64 = 0x6E4C_9F2A_71B0_5E1D;

/// Draws `count` places below `n`; returns the generator state after them.
pub fn sample_indices(seed: u64, count: usize, n: usize) -> (r: (Vec<usize>, u64))
    requires
        n > 0 || count == 0,
    ensures
        r.0@.len() == count,
        forall|j: int|
            0 <= j < count ==> r.0@[j] == #[trigger] lcg_after(seed, (j + 1) as nat) as int % (
            n as int),
        r.1 == lcg_after(seed, count as nat),
{
    let mut places: Vec<usize> = Vec::new();
    let mut state: u64 = seed;
    let mut j: usize = 0;
    while j < count
        invariant
            j <= count,
            n > 0 || count == 0,
            places@.len() == j,
            state == lcg_after(seed, j as nat),
            forall|i: int|
                0 <= i < j ==> places@[i] == #[trigger] lcg_after(seed, (i + 1) as nat) as int % (
                n as int),
        decreases count - j,
    {
        state = lcg(state);
        places.push((state % (n as u64)) as usize);
        j += 1;
    }
    (places, state)
}

/// What training begins with: a sample of the references, the reference that becomes the first
/// centroid, and the generator state after both draws.
pub struct TrainingStart {
    /// Places of the sampled references.
    pub sample: Vec<usize>,
    /// Place of the first centroid's reference.
    pub first: usize,
    /// Generator state after the draws.
    pub state: u64,
}

/// Draws the sample, at most one place per reference, and the first centroid.
pub fn training_start(n: usize, sample: usize) -> (t: TrainingStart)
    requires
        n > 0,
        sample > 0,
    ensures
        t.sample@.len() == if sample < n {
            sample
        } else {
            n
        },
        forall|j: int|
            0 <= j < t.sample@.len() ==> t.sample@[j] == #[trigger] lcg_after(
                TRAINING_SEED,
                (j + 1) as nat,
            ) as int % (n as int),
        t.state == lcg_after(TRAINING_SEED, (t.sample@.len() + 1) as nat),
        t.first == t.sample@[t.state as int % t.sample@.len() as int],
        t.first < n,
{
    let count: usize = if sample < n {
        sample
    } else {
        n
    };
    let (places, drawn) = sample_indices(TRAINING_SEED, count, n);
    let state: u64 = lcg(drawn);
    let pick: usize = (state % (count as u64)) as usize;
    assert(places@[pick as int] == lcg_after(TRAINING_SEED, (pick + 1) as nat) as int % (n as int));
    let first: usize = places[pick];
    TrainingStart { sample: places, first, state }
}

/// A drawn component lies between -30000 and 10000.
pub proof fn law_drawn_component_range(s: u64)
    ensures
        -30_000 <= drawn_component(s) <= 10_000,
{
}

/// The quotient by 2^64 of a state times the multiplier plus the increment.
pub open spec fn carried(s: u64) -> int {
    (s * 6364136223846793005 + 1442695040888963407) / 0x1_0000_0000_0000_0000
}

/// The generator multiplies by 6364136223846793005 and adds 1442695040888963407, up to a multiple
/// of 2^64; and steps follow each other.
pub proof fn law_generator_steps(s: u64, n: nat)
    ensures
        lcg_step(s) + carried(s) * 0x1_0000_0000_0000_0000 == s * 6364136223846793005
            + 1442695040888963407,
        lcg_after(s, 0) == s,
        lcg_after(s, n + 1) == lcg_step(lcg_after(s, n)),
{
    let x: int = s * 6364136223846793005 + 1442695040888963407;
    lemma_quotient(x);
}

proof fn lemma_quotient(x: int)
    ensures
        x % 0x1_0000_0000_0000_0000 + (x / 0x1_0000_0000_0000_0000) * 0x1_0000_0000_0000_0000 == x,
{
}

/// A drawn component is 10000 below a number that leaves the same remainder by 20001 as the top 16
/// bits of the state, taken as a signed number, and is on the same side of zero.
pub proof fn law_drawn_components(s: u64, x: int)
    requires
        -0x8000 <= x < 0x8000,
        (s as int / 0x1_0000_0000_0000 - x) % 0x1_0000 == 0,
    ensures
        exists|k: int| #[trigger] (20_001 * k) == x - (drawn_component(s) + 10_000),
        x >= 0 ==> 0 <= drawn_component(s) + 10_000 <= x,
        x <= 0 ==> x <= drawn_component(s) + 10_000 <= 0,
        -20_001 < drawn_component(s) + 10_000 < 20_001,
{
    let top = s as int / 0x1_0000_0000_0000;
    assert(x == if top < 0x8000 {
        top
    } else {
        top - 0x1_0000
    });
    let y = drawn_component(s) + 10_000;
    assert(y == signed_rem(x, 20_001));
    if x >= 0 {
        assert(20_001 * (x / 20_001) == x - y);
    } else {
        assert(20_001 * (-((-x) / 20_001)) == x - y);
    }
}

/// Warm-up and training start from two different fixed states.
pub proof fn law_seeds()
    ensures
        WARMUP_SEED == 11_400_714_819_323_198_485,
        TRAINING_SEED == 7_947_902_447_046_909_469,
{
}

} // verus!
