//! The index: its in-memory form and its file format.

use vstd::prelude::*;
use crate::codec::{
    i16s_at,
    i16s_bytes,
    law_i16s_read_back,
    law_u32s_read_back,
    push_i16s,
    push_u32s,
    read_i16s,
    read_u32_at,
    read_u32s,
    u32_at,
    u32s_at,
    u32s_bytes,
};
use crate::ivf::{BLOCK_SIZE, DIM, K};

verus! {

/// Where component `d` of the vector at position `g` lies among the block cells.
///
/// A block holds 16 vectors, component by component: 14 rows of 16 lanes.
pub open spec fn cell(g: int, d: int) -> int {
    224 * (g / 16) + 16 * d + g % 16
}

/// The vector at position `g`.
pub open spec fn vector_at(blocks: Seq<i16>, g: int) -> Seq<i16> {
    Seq::new(DIM as nat, |d: int| blocks[cell(g, d)])
}

/// The first bytes of an index file: `RIVF`.
pub const MAGIC: [u8; 4] = [82, 73, 86, 70];

/// The version of the file format.
pub const VERSION: u32 = 1;

/// Length of the file header.
pub const HEADER_LEN: usize = 32;

/// What an index file begins with.
#[derive(Clone, Copy)]
pub struct Header {
    /// `RIVF`.
    pub magic: [u8; 4],
    /// Version of the file format.
    pub version: u32,
    /// Number of reference vectors.
    pub n_vectors: u32,
    /// Number of clusters.
    pub k: u32,
    /// Components of a vector.
    pub dim: u32,
    /// Vectors per block.
    pub block_size: u32,
    /// Number of blocks.
    pub n_blocks: u32,
    /// Unused.
    pub _pad: u32,
}

impl Header {
    /// The words behind the magic bytes.
    pub open spec fn words(&self) -> Seq<u32> {
        seq![
            self.version,
            self.n_vectors,
            self.k,
            self.dim,
            self.block_size,
            self.n_blocks,
            self._pad,
        ]
    }

    /// How the header is spelled.
    pub open spec fn bytes(&self) -> Seq<u8> {
        self.magic@ + u32s_bytes(self.words())
    }

    /// `self` is what the first 32 bytes of `b` spell.
    pub open spec fn is_at_start_of(&self, b: Seq<u8>) -> bool {
        &&& self.magic@ == b.subrange(0, 4)
        &&& self.words() == u32s_at(b, 4, 7)
    }

    /// Reads a header.
    pub fn read(b: &[u8]) -> (h: Header)
        requires
            b@.len() >= HEADER_LEN,
        ensures
            h.is_at_start_of(b@),
    {
        let h = Header {
            magic: [b[0], b[1], b[2], b[3]],
            version: read_u32_at(b, 4),
            n_vectors: read_u32_at(b, 8),
            k: read_u32_at(b, 12),
            dim: read_u32_at(b, 16),
            block_size: read_u32_at(b, 20),
            n_blocks: read_u32_at(b, 24),
            _pad: read_u32_at(b, 28),
        };
        assert(h.magic@ =~= b@.subrange(0, 4));
        assert(h.words() =~= u32s_at(b@, 4, 7));
        h
    }

    /// Appends the header.
    pub fn write(&self, out: &mut Vec<u8>)
        ensures
            final(out)@ == old(out)@ + self.bytes(),
    {
        let ghost before = out@;
        out.push(self.magic[0]);
        out.push(self.magic[1]);
        out.push(self.magic[2]);
        out.push(self.magic[3]);
        assert(out@ =~= before + self.magic@);
        let words: [u32; 7] = [
            self.version,
            self.n_vectors,
            self.k,
            self.dim,
            self.block_size,
            self.n_blocks,
            self._pad,
        ];
        assert(words@ =~= self.words());
        push_u32s(out, words.as_slice());
        assert(out@ =~= before + self.bytes());
    }
}

/// Why a file is not an index.
#[derive(Clone, Copy, PartialEq, Eq, Structural)]
pub enum IndexError {
    /// The file has no room for a header.
    TooSmall,
    /// The file does not begin with the magic bytes.
    BadMagic,
    /// The file has another version.
    BadVersion,
    /// The file was built for other clusters, components or blocks.
    ParamMismatch { k: u32, dim: u32, block_size: u32 },
}

/// Why `b` is not an index, if it is not.
pub open spec fn index_error(b: Seq<u8>) -> Option<IndexError> {
    if b.len() < 32 {
        Some(IndexError::TooSmall)
    } else if b.subrange(0, 4) != MAGIC@ {
        Some(IndexError::BadMagic)
    } else if u32_at(b, 4) != VERSION {
        Some(IndexError::BadVersion)
    } else if u32_at(b, 12) != K || u32_at(b, 16) != DIM || u32_at(b, 20) != BLOCK_SIZE {
        Some(
            IndexError::ParamMismatch {
                k: u32_at(b, 12),
                dim: u32_at(b, 16),
                block_size: u32_at(b, 20),
            },
        )
    } else {
        None
    }
}

/// Number of blocks that an index file announces.
pub open spec fn announced_blocks(b: Seq<u8>) -> int {
    u32_at(b, 24) as int
}

/// Length of an index file with `n_blocks` blocks: 118820 bytes of header and cluster tables,
/// and 528 bytes per block.
pub open spec fn file_len(n_blocks: int) -> int {
    118_820 + 528 * n_blocks
}

/// An index file is as long as it announces.
pub open spec fn is_complete(b: Seq<u8>) -> bool {
    index_error(b) is None ==> b.len() >= file_len(announced_blocks(b))
}

/// The contents of a data set.
pub struct Contents {
    /// Number of reference vectors.
    pub n_vectors: int,
    /// Number of blocks.
    pub n_blocks: int,
    /// Centroids, as bit patterns.
    pub centroids: Seq<u32>,
    /// Lower corners of the bounding boxes.
    pub bbox_min: Seq<i16>,
    /// Upper corners of the bounding boxes.
    pub bbox_max: Seq<i16>,
    /// Where each cluster begins, and where the last one ends.
    pub offsets: Seq<u32>,
    /// Block cells.
    pub blocks: Seq<i16>,
    /// Labels.
    pub labels: Seq<u8>,
    /// Places among the references.
    pub orig_ids: Seq<u32>,
}

/// What an index file holds.
pub open spec fn contents_of(b: Seq<u8>) -> Contents {
    let nb = announced_blocks(b);
    Contents {
        n_vectors: u32_at(b, 8) as int,
        n_blocks: nb,
        centroids: u32s_at(b, 32, 14336),
        bbox_min: i16s_at(b, 57_376, 14336),
        bbox_max: i16s_at(b, 86_048, 14336),
        offsets: u32s_at(b, 114_720, 1025),
        blocks: i16s_at(b, 118_820, (224 * nb) as nat),
        labels: b.subrange(118_820 + 448 * nb, 118_820 + 464 * nb),
        orig_ids: u32s_at(b, 118_820 + 464 * nb, (16 * nb) as nat),
    }
}

/// A searchable set of labelled reference vectors, grouped into clusters.
pub struct Dataset {
    /// Number of reference vectors.
    pub n_vectors: usize,
    /// Number of 16-vector blocks.
    pub n_blocks: usize,
    /// Centroids, component by component, as single-precision bit patterns.
    pub centroids: Vec<u32>,
    /// Per cluster and component, the least value.
    pub bbox_min: Vec<i16>,
    /// Per cluster and component, the greatest value.
    pub bbox_max: Vec<i16>,
    /// Cluster `c` holds the positions from `offsets[c]` up to `offsets[c + 1]`.
    pub offsets: Vec<u32>,
    /// The vectors, block by block.
    pub blocks: Vec<i16>,
    /// Per position, 1 for fraud and 0 otherwise.
    pub labels: Vec<u8>,
    /// Per position, the place of the vector among the references.
    pub orig_ids: Vec<u32>,
}

impl View for Dataset {
    type V = Contents;

    open spec fn view(&self) -> Contents {
        Contents {
            n_vectors: self.n_vectors as int,
            n_blocks: self.n_blocks as int,
            centroids: self.centroids@,
            bbox_min: self.bbox_min@,
            bbox_max: self.bbox_max@,
            offsets: self.offsets@,
            blocks: self.blocks@,
            labels: self.labels@,
            orig_ids: self.orig_ids@,
        }
    }
}

/// Reads the vector at a position.
pub fn read_vector(blocks: &[i16], g: usize) -> (v: [i16; DIM])
    requires
        cell(g as int, 13) < blocks@.len(),
    ensures
        v@ == vector_at(blocks@, g as int),
{
    let block: usize = g / 16;
    let lane: usize = g % 16;
    assert(blocks.len() == blocks@.len());
    let base: usize = block * 224;
    let mut out = [0i16; DIM];
    let mut d: usize = 0;
    while d < DIM
        invariant
            d <= DIM,
            cell(g as int, 13) < blocks@.len() <= usize::MAX,
            block == g / 16,
            lane == g % 16,
            base == 224 * block,
            forall|j: int| 0 <= j < d ==> out@[j] == blocks@[cell(g as int, j)],
        decreases DIM - d,
    {
        out[d] = blocks[base + d * 16 + lane];
        d += 1;
    }
    assert(out@ =~= vector_at(blocks@, g as int));
    out
}

impl Dataset {
    /// Every table has the length that the cluster and block counts ask for.
    pub open spec fn wf(&self) -> bool {
        &&& self.centroids@.len() == 14336
        &&& self.bbox_min@.len() == 14336
        &&& self.bbox_max@.len() == 14336
        &&& self.offsets@.len() == 1025
        &&& self.blocks@.len() == 224 * self.n_blocks
        &&& self.labels@.len() == 16 * self.n_blocks
        &&& self.orig_ids@.len() == 16 * self.n_blocks
    }

    /// Cluster `c` is empty or ends within the stored positions.
    pub open spec fn cluster_in_range(&self, c: int) -> bool {
        self.offsets@[c] < self.offsets@[c + 1] ==> self.offsets@[c + 1] <= self.labels@.len()
    }

    /// Every cluster is empty or ends within the stored positions.
    pub open spec fn clusters_in_range(&self) -> bool {
        forall|c: int| 0 <= c < 1024 ==> #[trigger] self.cluster_in_range(c)
    }

    /// The clusters follow each other without gaps and hold the reference vectors between them.
    pub open spec fn is_partitioned(&self) -> bool {
        &&& self.offsets@[0] == 0
        &&& forall|c: int| 0 <= c < 1024 ==> (#[trigger] self.offsets@[c]) <= self.offsets@[c + 1]
        &&& self.offsets@[1024] == self.n_vectors
        &&& self.n_vectors <= self.labels@.len()
    }

    /// Position `g` belongs to cluster `c`.
    pub open spec fn in_cluster(&self, c: int, g: int) -> bool {
        self.offsets@[c] <= g < self.offsets@[c + 1]
    }

    /// Number of reference vectors.
    pub fn n_vectors(&self) -> (n: usize)
        ensures
            n == self.n_vectors,
    {
        self.n_vectors
    }

    /// The vector at a position.
    pub fn vector(&self, global_idx: usize) -> (v: [i16; DIM])
        requires
            cell(global_idx as int, 13) < self.blocks@.len(),
        ensures
            v@ == vector_at(self.blocks@, global_idx as int),
    {
        read_vector(self.blocks.as_slice(), global_idx)
    }

    /// The label at a position.
    pub fn label(&self, global_idx: usize) -> (l: u8)
        requires
            global_idx < self.labels@.len(),
        ensures
            l == self.labels@[global_idx as int],
    {
        self.labels[global_idx]
    }

    /// Tests that every table has the length that the cluster and block counts ask for.
    pub fn is_wf(&self) -> (b: bool)
        ensures
            b == self.wf(),
    {
        let cells: u128 = 224 * (self.n_blocks as u128);
        let positions: u128 = 16 * (self.n_blocks as u128);
        self.centroids.len() == 14336 && self.bbox_min.len() == 14336 && self.bbox_max.len()
            == 14336 && self.offsets.len() == 1025 && self.blocks.len() as u128 == cells
            && self.labels.len() as u128 == positions && self.orig_ids.len() as u128 == positions
    }

    /// Tests that every cluster is empty or ends within the stored positions.
    pub fn are_clusters_in_range(&self) -> (b: bool)
        requires
            self.wf(),
        ensures
            b == self.clusters_in_range(),
    {
        let mut c: usize = 0;
        while c < 1024
            invariant
                c <= 1024,
                self.wf(),
                forall|j: int| 0 <= j < c ==> #[trigger] self.cluster_in_range(j),
            decreases 1024 - c,
        {
            let start: usize = self.offsets[c] as usize;
            let end: usize = self.offsets[c + 1] as usize;
            if start < end && end > self.labels.len() {
                assert(!self.cluster_in_range(c as int));
                return false;
            }
            c += 1;
        }
        true
    }
}

/// Tests that an index file is as long as it announces.
pub fn is_complete_index(bytes: &[u8]) -> (ok: bool)
    ensures
        ok == is_complete(bytes@),
{
    match check_header(bytes) {
        Ok(h) => bytes.len() as u128 >= 118_820 + 528 * (h.n_blocks as u128),
        Err(_) => true,
    }
}

/// Reads the header and tests that this library can use the file.
fn check_header(bytes: &[u8]) -> (r: Result<Header, IndexError>)
    ensures
        match r {
            Ok(h) => index_error(bytes@) is None && h.is_at_start_of(bytes@),
            Err(e) => index_error(bytes@) == Some(e),
        },
{
    if bytes.len() < HEADER_LEN {
        return Err(IndexError::TooSmall);
    }
    let h = Header::read(bytes);
    proof {
        let w = h.words();
        assert(w[0] == h.version && w[2] == h.k && w[3] == h.dim && w[4] == h.block_size);
        assert(w[0] == u32_at(bytes@, 4) && w[2] == u32_at(bytes@, 12));
        assert(w[3] == u32_at(bytes@, 16) && w[4] == u32_at(bytes@, 20));
    }
    if h.magic[0] != MAGIC[0] || h.magic[1] != MAGIC[1] || h.magic[2] != MAGIC[2] || h.magic[3]
        != MAGIC[3] {
        assert(h.magic@ != MAGIC@);
        return Err(IndexError::BadMagic);
    }
    assert(h.magic@ =~= MAGIC@);
    if h.version != VERSION {
        return Err(IndexError::BadVersion);
    }
    if h.k as usize != K || h.dim as usize != DIM || h.block_size as usize != BLOCK_SIZE {
        return Err(
            IndexError::ParamMismatch { k: h.k, dim: h.dim, block_size: h.block_size },
        );
    }
    Ok(h)
}

/// Reads an index file.
pub fn parse_index(bytes: &[u8]) -> (r: Result<Dataset, IndexError>)
    requires
        is_complete(bytes@),
    ensures
        match r {
            Ok(ds) => index_error(bytes@) is None && ds.wf() && ds@ == contents_of(bytes@),
            Err(e) => index_error(bytes@) == Some(e),
        },
{
    let header = match check_header(bytes) {
        Ok(h) => h,
        Err(e) => return Err(e),
    };
    proof {
        let w = header.words();
        assert(w[1] == header.n_vectors && w[5] == header.n_blocks);
        assert(w[1] == u32_at(bytes@, 8) && w[5] == u32_at(bytes@, 24));
        assert(bytes@.len() == bytes.len());
    }
    let n: usize = header.n_vectors as usize;
    let nb: usize = header.n_blocks as usize;
    let centroids = read_u32s(bytes, 32, 14336);
    let bbox_min = read_i16s(bytes, 57_376, 14336);
    let bbox_max = read_i16s(bytes, 86_048, 14336);
    let offsets = read_u32s(bytes, 114_720, 1025);
    let blocks = read_i16s(bytes, 118_820, 224 * nb);
    let labels_start: usize = 118_820 + 448 * nb;
    let ids_start: usize = labels_start + 16 * nb;
    let labels = vstd::slice::slice_to_vec(&bytes[labels_start..ids_start]);
    let orig_ids = read_u32s(bytes, ids_start, 16 * nb);
    Ok(
        Dataset {
            n_vectors: n,
            n_blocks: nb,
            centroids,
            bbox_min,
            bbox_max,
            offsets,
            blocks,
            labels,
            orig_ids,
        },
    )
}

/// Number of blocks that hold `n_vectors` vectors.
pub open spec fn blocks_for(n_vectors: int) -> int {
    (n_vectors + 15) / 16
}

/// The header of an index of `n_vectors` vectors; counts keep their low 32 bits.
pub open spec fn header_for(n_vectors: int) -> Header {
    Header {
        magic: MAGIC,
        version: VERSION,
        n_vectors: (n_vectors % 0x1_0000_0000) as u32,
        k: 1024,
        dim: 14,
        block_size: 16,
        n_blocks: (blocks_for(n_vectors) % 0x1_0000_0000) as u32,
        _pad: 0,
    }
}

/// How an index is spelled.
pub open spec fn index_bytes(
    n_vectors: int,
    centroids: Seq<u32>,
    bbox_min: Seq<i16>,
    bbox_max: Seq<i16>,
    offsets: Seq<u32>,
    blocks: Seq<i16>,
    labels: Seq<u8>,
    orig_ids: Seq<u32>,
) -> Seq<u8> {
    header_for(n_vectors).bytes() + u32s_bytes(centroids) + i16s_bytes(bbox_min) + i16s_bytes(
        bbox_max,
    ) + u32s_bytes(offsets) + i16s_bytes(blocks) + labels + u32s_bytes(orig_ids)
}

/// Spells an index.
pub fn write_index(
    n_vectors: usize,
    centroids: &[u32],
    bbox_min: &[i16],
    bbox_max: &[i16],
    offsets: &[u32],
    blocks: &[i16],
    labels: &[u8],
    orig_ids: &[u32],
) -> (out: Vec<u8>)
    requires
        n_vectors + 15 <= usize::MAX,
    ensures
        out@ == index_bytes(
            n_vectors as int,
            centroids@,
            bbox_min@,
            bbox_max@,
            offsets@,
            blocks@,
            labels@,
            orig_ids@,
        ),
{
    let n_blocks: usize = (n_vectors + 15) / 16;
    let header = Header {
        magic: MAGIC,
        version: VERSION,
        n_vectors: (n_vectors as u64 % 0x1_0000_0000) as u32,
        k: 1024,
        dim: 14,
        block_size: 16,
        n_blocks: (n_blocks as u64 % 0x1_0000_0000) as u32,
        _pad: 0,
    };
    let mut out: Vec<u8> = Vec::new();
    header.write(&mut out);
    push_u32s(&mut out, centroids);
    push_i16s(&mut out, bbox_min);
    push_i16s(&mut out, bbox_max);
    push_u32s(&mut out, offsets);
    push_i16s(&mut out, blocks);
    out.extend_from_slice(labels);
    push_u32s(&mut out, orig_ids);
    assert(out@ =~= index_bytes(
        n_vectors as int,
        centroids@,
        bbox_min@,
        bbox_max@,
        offsets@,
        blocks@,
        labels@,
        orig_ids@,
    ));
    out
}

/// `b` begins with `a`.
spec fn begins_with(b: Seq<u8>, a: Seq<u8>) -> bool {
    a.len() <= b.len() && b.take(a.len() as int) == a
}

/// What a concatenation begins with, its first part begins with too.
proof fn lemma_begins_with_part(b: Seq<u8>, a: Seq<u8>, x: Seq<u8>)
    requires
        begins_with(b, a + x),
    ensures
        begins_with(b, a),
        b.subrange(a.len() as int, (a.len() + x.len()) as int) == x,
{
    let ax = a + x;
    assert(b.take(a.len() as int) =~= b.take(ax.len() as int).take(a.len() as int));
    assert(ax.take(a.len() as int) =~= a);
    assert(b.subrange(a.len() as int, (a.len() + x.len()) as int) =~= b.take(ax.len() as int).skip(
        a.len() as int,
    ));
    assert(ax.skip(a.len() as int) =~= x);
}

/// A table of 32-bit words reads back from the file it stands in.
proof fn lemma_u32_table(b: Seq<u8>, a: Seq<u8>, s: Seq<u32>)
    requires
        begins_with(b, a + u32s_bytes(s)),
    ensures
        begins_with(b, a),
        u32s_at(b, a.len() as int, s.len()) == s,
{
    let part = a + u32s_bytes(s);
    lemma_begins_with_part(b, a, u32s_bytes(s));
    assert(b =~= part + b.skip(part.len() as int));
    law_u32s_read_back(a, s, b.skip(part.len() as int));
}

/// A table of signed 16-bit words reads back from the file it stands in.
proof fn lemma_i16_table(b: Seq<u8>, a: Seq<u8>, s: Seq<i16>)
    requires
        begins_with(b, a + i16s_bytes(s)),
    ensures
        begins_with(b, a),
        i16s_at(b, a.len() as int, s.len()) == s,
{
    let part = a + i16s_bytes(s);
    lemma_begins_with_part(b, a, i16s_bytes(s));
    assert(b =~= part + b.skip(part.len() as int));
    law_i16s_read_back(a, s, b.skip(part.len() as int));
}

/// A header that was written is accepted.
proof fn lemma_header_reads_back(b: Seq<u8>, n_vectors: int)
    requires
        0 <= n_vectors <= u32::MAX,
        begins_with(b, header_for(n_vectors).bytes()),
    ensures
        header_for(n_vectors).bytes().len() == 32,
        index_error(b) is None,
        u32_at(b, 8) == n_vectors,
        announced_blocks(b) == blocks_for(n_vectors),
{
    let h = header_for(n_vectors);
    assert(h.words().len() == 7);
    lemma_u32_table(b, h.magic@, h.words());
    lemma_begins_with_part(b, h.magic@, u32s_bytes(h.words()));
    let w = u32s_at(b, 4, 7);
    assert(w == h.words());
    assert(w[0] == u32_at(b, 4) && w[1] == u32_at(b, 8) && w[2] == u32_at(b, 12));
    assert(w[3] == u32_at(b, 16) && w[4] == u32_at(b, 20) && w[5] == u32_at(b, 24));
    assert(b.subrange(0, 4) =~= b.take(4));
}

/// An index reads back as it was written: the file is accepted, is complete, and holds the tables
/// that were spelled.
pub proof fn law_index_reads_back(c: Contents)
    requires
        0 <= c.n_vectors <= u32::MAX,
        c.n_blocks == blocks_for(c.n_vectors),
        c.centroids.len() == 14336,
        c.bbox_min.len() == 14336,
        c.bbox_max.len() == 14336,
        c.offsets.len() == 1025,
        c.blocks.len() == 224 * c.n_blocks,
        c.labels.len() == 16 * c.n_blocks,
        c.orig_ids.len() == 16 * c.n_blocks,
    ensures
        ({
            let b = index_bytes(
                c.n_vectors,
                c.centroids,
                c.bbox_min,
                c.bbox_max,
                c.offsets,
                c.blocks,
                c.labels,
                c.orig_ids,
            );
            &&& index_error(b) is None
            &&& b.len() == file_len(c.n_blocks)
            &&& contents_of(b) == c
        }),
{
    let b0 = header_for(c.n_vectors).bytes();
    let b1 = b0 + u32s_bytes(c.centroids);
    let b2 = b1 + i16s_bytes(c.bbox_min);
    let b3 = b2 + i16s_bytes(c.bbox_max);
    let b4 = b3 + u32s_bytes(c.offsets);
    let b5 = b4 + i16s_bytes(c.blocks);
    let b6 = b5 + c.labels;
    let b = b6 + u32s_bytes(c.orig_ids);
    assert(b.take(b.len() as int) =~= b);
    lemma_u32_table(b, b6, c.orig_ids);
    lemma_begins_with_part(b, b5, c.labels);
    lemma_i16_table(b, b4, c.blocks);
    lemma_u32_table(b, b3, c.offsets);
    lemma_i16_table(b, b2, c.bbox_max);
    lemma_i16_table(b, b1, c.bbox_min);
    lemma_u32_table(b, b0, c.centroids);
    lemma_header_reads_back(b, c.n_vectors);
}

/// Where the clusters follow each other and hold the reference vectors between them, every one is
/// in range.
pub proof fn law_partitioned_clusters_are_in_range(ds: &Dataset)
    requires
        ds.wf(),
        ds.is_partitioned(),
    ensures
        ds.clusters_in_range(),
{
    assert forall|c: int| 0 <= c < 1024 implies #[trigger] ds.cluster_in_range(c) by {
        lemma_offsets_below_end(ds, c + 1);
    }
}

proof fn lemma_offsets_below_end(ds: &Dataset, c: int)
    requires
        ds.is_partitioned(),
        0 <= c <= 1024,
    ensures
        ds.offsets@[c] <= ds.n_vectors,
    decreases 1024 - c,
{
    if c < 1024 {
        lemma_offsets_below_end(ds, c + 1);
        assert(ds.offsets@[c] <= ds.offsets@[c + 1]);
    }
}

/// There are as many blocks as the reference vectors fill, sixteen in each but the last one.
pub proof fn law_blocks_hold_the_references(n: int)
    requires
        0 <= n,
    ensures
        16 * (blocks_for(n) - 1) < n <= 16 * blocks_for(n),
{
}

} // verus!
