//! Little-endian words: how the tables of an index file spell their entries.

use vstd::prelude::*;

verus! {

/// Byte `k` of a 16-bit word.
pub open spec fn u16_byte(x: u16, k: int) -> u8 {
    if k == 0 {
        (x % 256) as u8
    } else {
        (x / 256) as u8
    }
}

/// The 16-bit word at `off`.
pub open spec fn u16_at(b: Seq<u8>, off: int) -> u16 {
    (b[off] + 256 * b[off + 1]) as u16
}

/// Reads a 16-bit word, low byte first.
///
/// The bytes go through `bytemuck::pod_read_unaligned`, which panics unless their number is the
/// size of the type and otherwise reads them in the byte order of the machine; `u16::from_le`
/// turns that order into the low byte first. The contract claims that the result is the first
/// byte plus 256 times the second, on every machine.
#[verifier::external_body]
fn read_u16(b: &[u8]) -> (x: u16)
    requires
        b@.len() == 2,
    ensures
        x == u16_at(b@, 0),
{
    u16::from_le(bytemuck::pod_read_unaligned(b))
}

/// Spells a 16-bit word, low byte first.
///
/// `u16::to_le` puts the low byte first in memory and `bytemuck::cast`, which panics only when
/// the two types differ in size, hands out the two bytes as they lie there. The contract claims
/// that they are the remainder and the quotient of the word by 256, on every machine.
#[verifier::external_body]
fn u16_bytes(x: u16) -> (b: [u8; 2])
    ensures
        b@[0] == u16_byte(x, 0),
        b@[1] == u16_byte(x, 1),
{
    bytemuck::cast(x.to_le())
}

/// The low half of a 32-bit word.
pub open spec fn low_half(x: u32) -> u16 {
    (x % 65536) as u16
}

/// The high half of a 32-bit word.
pub open spec fn high_half(x: u32) -> u16 {
    (x / 65536) as u16
}

/// Byte `k` of a 32-bit word.
pub open spec fn u32_byte(x: u32, k: int) -> u8 {
    if k < 2 {
        u16_byte(low_half(x), k)
    } else {
        u16_byte(high_half(x), k - 2)
    }
}

/// The 32-bit word at `off`.
pub open spec fn u32_at(b: Seq<u8>, off: int) -> u32 {
    (u16_at(b, off) + 65536 * u16_at(b, off + 2)) as u32
}

/// The unsigned 16-bit word that a signed one is stored as.
pub open spec fn unsigned(x: i16) -> u16 {
    if x < 0 {
        (x + 65536) as u16
    } else {
        x as u16
    }
}

/// The signed 16-bit word that an unsigned one stands for.
pub open spec fn signed(x: u16) -> i16 {
    if x < 32768 {
        x as i16
    } else {
        (x - 65536) as i16
    }
}

/// The `n` 32-bit words from `off` on.
pub open spec fn u32s_at(b: Seq<u8>, off: int, n: nat) -> Seq<u32> {
    Seq::new(n, |i: int| u32_at(b, off + 4 * i))
}

/// The `n` signed 16-bit words from `off` on.
pub open spec fn i16s_at(b: Seq<u8>, off: int, n: nat) -> Seq<i16> {
    Seq::new(n, |i: int| signed(u16_at(b, off + 2 * i)))
}

/// How 32-bit words are spelled.
pub open spec fn u32s_bytes(s: Seq<u32>) -> Seq<u8> {
    Seq::new(4 * s.len(), |i: int| u32_byte(s[i / 4], i % 4))
}

/// How signed 16-bit words are spelled.
pub open spec fn i16s_bytes(s: Seq<i16>) -> Seq<u8> {
    Seq::new(2 * s.len(), |i: int| u16_byte(unsigned(s[i / 2]), i % 2))
}

/// Reads the 32-bit word at `off`.
pub fn read_u32_at(b: &[u8], off: usize) -> (x: u32)
    requires
        off + 4 <= b@.len(),
    ensures
        x == u32_at(b@, off as int),
{
    assert(b@.len() == b.len());
    let low: u16 = read_u16(&b[off..off + 2]);
    let high: u16 = read_u16(&b[off + 2..off + 4]);
    assert(low == u16_at(b@, off as int) && high == u16_at(b@, off + 2));
    low as u32 + 65536 * (high as u32)
}

/// Reads `n` 32-bit words from `off` on.
pub fn read_u32s(b: &[u8], off: usize, n: usize) -> (v: Vec<u32>)
    requires
        off + 4 * n <= b@.len(),
    ensures
        v@ == u32s_at(b@, off as int, n as nat),
{
    let mut v: Vec<u32> = Vec::with_capacity(n);
    let mut i: usize = 0;
    while i < n
        invariant
            i <= n,
            off + 4 * n <= b@.len(),
            v@ == u32s_at(b@, off as int, i as nat),
        decreases n - i,
    {
        assert(b@.len() == b.len());
        v.push(read_u32_at(b, off + 4 * i));
        i += 1;
        assert(v@ =~= u32s_at(b@, off as int, i as nat));
    }
    v
}

/// Reads `n` signed 16-bit words from `off` on.
pub fn read_i16s(b: &[u8], off: usize, n: usize) -> (v: Vec<i16>)
    requires
        off + 2 * n <= b@.len(),
    ensures
        v@ == i16s_at(b@, off as int, n as nat),
{
    let mut v: Vec<i16> = Vec::with_capacity(n);
    let mut i: usize = 0;
    while i < n
        invariant
            i <= n,
            off + 2 * n <= b@.len(),
            v@ == i16s_at(b@, off as int, i as nat),
        decreases n - i,
    {
        assert(b@.len() == b.len());
        let at: usize = off + 2 * i;
        let x: u16 = read_u16(&b[at..at + 2]);
        assert(x == u16_at(b@, at as int));
        v.push(
            if x < 32768 {
                x as i16
            } else {
                (x as i32 - 65536) as i16
            },
        );
        i += 1;
        assert(v@ =~= i16s_at(b@, off as int, i as nat));
    }
    v
}

/// Appends a 16-bit word.
fn push_u16(out: &mut Vec<u8>, x: u16)
    ensures
        final(out)@ == old(out)@.push(u16_byte(x, 0)).push(u16_byte(x, 1)),
{
    let b = u16_bytes(x);
    out.push(b[0]);
    out.push(b[1]);
}

/// Appends 32-bit words.
pub fn push_u32s(out: &mut Vec<u8>, s: &[u32])
    ensures
        final(out)@ == old(out)@ + u32s_bytes(s@),
{
    let ghost before = out@;
    let mut i: usize = 0;
    assert(before + u32s_bytes(s@.take(0)) =~= before);
    while i < s.len()
        invariant
            i <= s@.len(),
            out@ == before + u32s_bytes(s@.take(i as int)),
        decreases s@.len() - i,
    {
        let x: u32 = s[i];
        push_u16(out, (x % 65536) as u16);
        push_u16(out, (x / 65536) as u16);
        i += 1;
        assert(out@ =~= before + u32s_bytes(s@.take(i as int)));
    }
    assert(s@.take(i as int) =~= s@);
}

/// Appends signed 16-bit words.
pub fn push_i16s(out: &mut Vec<u8>, s: &[i16])
    ensures
        final(out)@ == old(out)@ + i16s_bytes(s@),
{
    let ghost before = out@;
    let mut i: usize = 0;
    assert(before + i16s_bytes(s@.take(0)) =~= before);
    while i < s.len()
        invariant
            i <= s@.len(),
            out@ == before + i16s_bytes(s@.take(i as int)),
        decreases s@.len() - i,
    {
        let x: i16 = s[i];
        let u: u16 = if x < 0 {
            (x as i32 + 65536) as u16
        } else {
            x as u16
        };
        push_u16(out, u);
        i += 1;
        assert(out@ =~= before + i16s_bytes(s@.take(i as int)));
    }
    assert(s@.take(i as int) =~= s@);
}

/// A 16-bit word is the sum of its bytes.
proof fn lemma_u16_parts(b: Seq<u8>, off: int, x: u16)
    requires
        b[off] == u16_byte(x, 0),
        b[off + 1] == u16_byte(x, 1),
    ensures
        u16_at(b, off) == x,
{
}

/// A 32-bit word is the sum of its halves.
proof fn lemma_u32_parts(b: Seq<u8>, off: int, x: u32)
    requires
        u16_at(b, off) == low_half(x),
        u16_at(b, off + 2) == high_half(x),
    ensures
        u32_at(b, off) == x,
{
}

/// Byte `k` of word `i` among spelled 32-bit words.
#[verifier::spinoff_prover]
proof fn lemma_u32_byte_stands(before: Seq<u8>, s: Seq<u32>, after: Seq<u8>, i: int, k: int)
    requires
        0 <= i < s.len(),
        0 <= k < 4,
    ensures
        (before + u32s_bytes(s) + after)[before.len() + 4 * i + k] == u32_byte(s[i], k),
{
    let bytes = u32s_bytes(s);
    let j = 4 * i + k;
    assert(j / 4 == i && j % 4 == k);
    assert(bytes[j] == u32_byte(s[j / 4], j % 4));
    assert((before + bytes + after)[before.len() + j] == bytes[j]);
}

/// Byte `k` of word `i` among spelled signed 16-bit words.
#[verifier::spinoff_prover]
proof fn lemma_i16_byte_stands(before: Seq<u8>, s: Seq<i16>, after: Seq<u8>, i: int, k: int)
    requires
        0 <= i < s.len(),
        0 <= k < 2,
    ensures
        (before + i16s_bytes(s) + after)[before.len() + 2 * i + k] == u16_byte(unsigned(s[i]), k),
{
    let bytes = i16s_bytes(s);
    let j = 2 * i + k;
    assert(j / 2 == i && j % 2 == k);
    assert(bytes[j] == u16_byte(unsigned(s[j / 2]), j % 2));
    assert((before + bytes + after)[before.len() + j] == bytes[j]);
}

/// One 32-bit word reads back.
#[verifier::spinoff_prover]
proof fn lemma_u32_reads_back(before: Seq<u8>, s: Seq<u32>, after: Seq<u8>, i: int)
    requires
        0 <= i < s.len(),
    ensures
        u32_at(before + u32s_bytes(s) + after, before.len() + 4 * i) == s[i],
{
    let b = before + u32s_bytes(s) + after;
    let off = before.len() + 4 * i;
    lemma_u32_byte_stands(before, s, after, i, 0);
    lemma_u32_byte_stands(before, s, after, i, 1);
    lemma_u32_byte_stands(before, s, after, i, 2);
    lemma_u32_byte_stands(before, s, after, i, 3);
    lemma_u16_parts(b, off, low_half(s[i]));
    lemma_u16_parts(b, off + 2, high_half(s[i]));
    lemma_u32_parts(b, off, s[i]);
}

/// One signed 16-bit word reads back.
#[verifier::spinoff_prover]
proof fn lemma_i16_reads_back(before: Seq<u8>, s: Seq<i16>, after: Seq<u8>, i: int)
    requires
        0 <= i < s.len(),
    ensures
        signed(u16_at(before + i16s_bytes(s) + after, before.len() + 2 * i)) == s[i],
{
    let b = before + i16s_bytes(s) + after;
    let off = before.len() + 2 * i;
    lemma_i16_byte_stands(before, s, after, i, 0);
    lemma_i16_byte_stands(before, s, after, i, 1);
    lemma_u16_parts(b, off, unsigned(s[i]));
}

/// 32-bit words read back as they were spelled, wherever they stand.
#[verifier::spinoff_prover]
pub proof fn law_u32s_read_back(before: Seq<u8>, s: Seq<u32>, after: Seq<u8>)
    ensures
        u32s_at(before + u32s_bytes(s) + after, before.len() as int, s.len()) == s,
{
    let read = u32s_at(before + u32s_bytes(s) + after, before.len() as int, s.len());
    assert forall|i: int| 0 <= i < s.len() implies read[i] == s[i] by {
        lemma_u32_reads_back(before, s, after, i);
    }
    assert(read =~= s);
}

/// Signed 16-bit words read back as they were spelled, wherever they stand.
#[verifier::spinoff_prover]
pub proof fn law_i16s_read_back(before: Seq<u8>, s: Seq<i16>, after: Seq<u8>)
    ensures
        i16s_at(before + i16s_bytes(s) + after, before.len() as int, s.len()) == s,
{
    let read = i16s_at(before + i16s_bytes(s) + after, before.len() as int, s.len());
    assert forall|i: int| 0 <= i < s.len() implies read[i] == s[i] by {
        lemma_i16_reads_back(before, s, after, i);
    }
    assert(read =~= s);
}

} // verus!
