//! Where things stand in an index file.

use vstd::prelude::*;
use crate::codec::{i16s_bytes, u32s_bytes};
use crate::index::{
    contents_of,
    header_for,
    index_bytes,
    index_error,
    is_complete,
    IndexError,
    MAGIC,
};

verus! {

/// Four bytes, low byte first.
pub open spec fn word(b: Seq<u8>, at: int) -> int {
    b[at] + 256 * b[at + 1] + 65_536 * b[at + 2] + 16_777_216 * b[at + 3]
}

/// Two bytes, low byte first, as a signed number.
pub open spec fn short(b: Seq<u8>, at: int) -> int {
    let x = b[at] + 256 * b[at + 1];
    if x < 32_768 {
        x
    } else {
        x - 65_536
    }
}

/// A file is an index if and only if it has a header that says `RIVF`, version 1, 1024 clusters,
/// 14 components and 16 vectors to a block. Otherwise the first of these that is wrong is the
/// error.
pub proof fn law_index_headers(b: Seq<u8>)
    ensures
        b.len() < 32 <==> index_error(b) == Some(IndexError::TooSmall),
        b.len() >= 32 ==> {
            let magic = b[0] == 82 && b[1] == 73 && b[2] == 86 && b[3] == 70;
            let version = word(b, 4) == 1;
            let params = word(b, 12) == 1024 && word(b, 16) == 14 && word(b, 20) == 16;
            &&& index_error(b) == Some(IndexError::BadMagic) <==> !magic
            &&& index_error(b) == Some(IndexError::BadVersion) <==> magic && !version
            &&& index_error(b) is None <==> magic && version && params
            &&& magic && version && !params ==> (index_error(b) matches Some(
                IndexError::ParamMismatch { k, dim, block_size },
            ) && k == word(b, 12) && dim == word(b, 16) && block_size == word(b, 20))
        },
        index_error(b) is None ==> (is_complete(b) <==> b.len() >= 118_820 + 528 * word(b, 24)),
{
    if b.len() >= 32 {
        let m = b.subrange(0, 4);
        let r = MAGIC@;
        assert(m[0] == b[0] && m[1] == b[1] && m[2] == b[2] && m[3] == b[3]);
        if b[0] == 82 && b[1] == 73 && b[2] == 86 && b[3] == 70 {
            assert(m =~= r);
        } else {
            assert(m != r);
        }
    }
}

/// Behind the header stand the centroids, the lower and the upper corners of the boxes, the offsets
/// of the clusters, the blocks, the labels and the places among the references.
pub proof fn law_index_tables(b: Seq<u8>, i: int)
    requires
        is_complete(b),
        index_error(b) is None,
        0 <= i,
    ensures
        ({
            let c = contents_of(b);
            let nb = word(b, 24);
            &&& c.n_vectors == word(b, 8)
            &&& c.n_blocks == nb
            &&& c.centroids.len() == 14_336
            &&& c.bbox_min.len() == 14_336
            &&& c.bbox_max.len() == 14_336
            &&& c.offsets.len() == 1025
            &&& c.blocks.len() == 224 * nb
            &&& c.labels.len() == 16 * nb
            &&& c.orig_ids.len() == 16 * nb
            &&& i < 14_336 ==> c.centroids[i] == word(b, 32 + 4 * i)
            &&& i < 14_336 ==> c.bbox_min[i] == short(b, 57_376 + 2 * i)
            &&& i < 14_336 ==> c.bbox_max[i] == short(b, 86_048 + 2 * i)
            &&& i < 1025 ==> c.offsets[i] == word(b, 114_720 + 4 * i)
            &&& i < 224 * nb ==> c.blocks[i] == short(b, 118_820 + 2 * i)
            &&& i < 16 * nb ==> c.labels[i] == b[118_820 + 448 * nb + i]
            &&& i < 16 * nb ==> c.orig_ids[i] == word(b, 118_820 + 464 * nb + 4 * i)
        }),
{
    law_index_headers(b);
}

/// A 32-bit word among others reads as what it is.
#[verifier::spinoff_prover]
proof fn lemma_word_among(b: Seq<u8>, at: int, s: Seq<u32>, i: int)
    requires
        0 <= at,
        at + 4 * s.len() <= b.len(),
        0 <= i < s.len(),
        forall|j: int| 0 <= j < 4 * s.len() ==> b[at + j] == #[trigger] u32s_bytes(s)[j],
    ensures
        word(b, at + 4 * i) == s[i],
{
    let t = u32s_bytes(s);
    assert(b[at + 4 * i] == t[4 * i]);
    assert(b[at + (4 * i + 1)] == t[4 * i + 1]);
    assert(b[at + (4 * i + 2)] == t[4 * i + 2]);
    assert(b[at + (4 * i + 3)] == t[4 * i + 3]);
}

/// A signed 16-bit word among others reads as what it is.
#[verifier::spinoff_prover]
proof fn lemma_short_among(b: Seq<u8>, at: int, s: Seq<i16>, i: int)
    requires
        0 <= at,
        at + 2 * s.len() <= b.len(),
        0 <= i < s.len(),
        forall|j: int| 0 <= j < 2 * s.len() ==> b[at + j] == #[trigger] i16s_bytes(s)[j],
    ensures
        short(b, at + 2 * i) == s[i],
{
    let t = i16s_bytes(s);
    assert(b[at + 2 * i] == t[2 * i]);
    assert(b[at + (2 * i + 1)] == t[2 * i + 1]);
}

/// The tables of an index, whatever their lengths.
pub struct Tables {
    /// Number of reference vectors.
    pub n_vectors: nat,
    /// Centroids, as bit patterns.
    pub centroids: Seq<u32>,
    /// Lower corners of the bounding boxes.
    pub bbox_min: Seq<i16>,
    /// Upper corners of the bounding boxes.
    pub bbox_max: Seq<i16>,
    /// Where each cluster begins.
    pub offsets: Seq<u32>,
    /// Block cells.
    pub blocks: Seq<i16>,
    /// Labels.
    pub labels: Seq<u8>,
    /// Places among the references.
    pub orig_ids: Seq<u32>,
}

/// The file that is written of some tables.
pub open spec fn written(t: Tables) -> Seq<u8> {
    index_bytes(
        t.n_vectors as int,
        t.centroids,
        t.bbox_min,
        t.bbox_max,
        t.offsets,
        t.blocks,
        t.labels,
        t.orig_ids,
    )
}

/// A file begins with the header.
#[verifier::spinoff_prover]
proof fn lemma_header_written(t: Tables, k: int)
    requires
        0 <= k < 7,
    ensures
        written(t).len() == 32 + 4 * t.centroids.len() + 2 * t.bbox_min.len() + 2 * t.bbox_max.len()
            + 4 * t.offsets.len() + 2 * t.blocks.len() + t.labels.len() + 4 * t.orig_ids.len(),
        forall|j: int| 0 <= j < 4 ==> #[trigger] written(t)[j] == MAGIC@[j],
        word(written(t), 4 + 4 * k) == header_for(t.n_vectors as int).words()[k],
{
    let h = header_for(t.n_vectors as int);
    let w = h.words();
    let b = written(t);
    assert(h.bytes().len() == 32);
    assert forall|j: int| 0 <= j < 32 implies #[trigger] b[j] == h.bytes()[j] by {}
    assert forall|j: int| 0 <= j < 4 * w.len() implies b[4 + j] == #[trigger] u32s_bytes(w)[j] by {
        assert(h.bytes()[4 + j] == u32s_bytes(w)[j]);
        assert(b[4 + j] == h.bytes()[4 + j]);
    }
    lemma_word_among(b, 4, w, k);
}

/// Behind the header the tables follow each other.
#[verifier::spinoff_prover]
proof fn lemma_tables_written(t: Tables)
    ensures
        ({
            let b = written(t);
            let a = (32 + 4 * t.centroids.len()) as int;
            let c = (a + 2 * t.bbox_min.len()) as int;
            let d = (c + 2 * t.bbox_max.len()) as int;
            let e = (d + 4 * t.offsets.len()) as int;
            let f = (e + 2 * t.blocks.len()) as int;
            let g = (f + t.labels.len()) as int;
            &&& forall|j: int|
                0 <= j < 4 * t.centroids.len() ==> b[32 + j] == #[trigger] u32s_bytes(
                    t.centroids,
                )[j]
            &&& forall|j: int|
                0 <= j < 2 * t.bbox_min.len() ==> b[a + j] == #[trigger] i16s_bytes(t.bbox_min)[j]
            &&& forall|j: int|
                0 <= j < 2 * t.bbox_max.len() ==> b[c + j] == #[trigger] i16s_bytes(t.bbox_max)[j]
            &&& forall|j: int|
                0 <= j < 4 * t.offsets.len() ==> b[d + j] == #[trigger] u32s_bytes(t.offsets)[j]
            &&& forall|j: int|
                0 <= j < 2 * t.blocks.len() ==> b[e + j] == #[trigger] i16s_bytes(t.blocks)[j]
            &&& forall|j: int| 0 <= j < t.labels.len() ==> b[f + j] == #[trigger] t.labels[j]
            &&& forall|j: int|
                0 <= j < 4 * t.orig_ids.len() ==> b[g + j] == #[trigger] u32s_bytes(t.orig_ids)[j]
        }),
{
    assert(header_for(t.n_vectors as int).bytes().len() == 32);
}

/// The numbers of the header.
#[verifier::spinoff_prover]
proof fn lemma_header_numbers(t: Tables)
    ensures
        ({
            let b = written(t);
            &&& b.len() == 32 + 4 * t.centroids.len() + 2 * t.bbox_min.len() + 2
                * t.bbox_max.len() + 4 * t.offsets.len() + 2 * t.blocks.len() + t.labels.len() + 4
                * t.orig_ids.len()
            &&& b[0] == 82 && b[1] == 73 && b[2] == 86 && b[3] == 70
            &&& word(b, 4) == 1
            &&& word(b, 8) == t.n_vectors % 0x1_0000_0000
            &&& word(b, 12) == 1024
            &&& word(b, 16) == 14
            &&& word(b, 20) == 16
            &&& word(b, 24) == ((t.n_vectors + 15) / 16) % 0x1_0000_0000
            &&& word(b, 28) == 0
        }),
{
    let b = written(t);
    let w = header_for(t.n_vectors as int).words();
    lemma_header_written(t, 0);
    assert(word(b, 4) == w[0]);
    assert(word(b, 8) == w[1]) by {
        lemma_header_written(t, 1);
    }
    assert(word(b, 12) == w[2]) by {
        lemma_header_written(t, 2);
    }
    assert(word(b, 16) == w[3]) by {
        lemma_header_written(t, 3);
    }
    assert(word(b, 20) == w[4]) by {
        lemma_header_written(t, 4);
    }
    assert(word(b, 24) == w[5]) by {
        lemma_header_written(t, 5);
    }
    assert(word(b, 28) == w[6]) by {
        lemma_header_written(t, 6);
    }
}

/// A written file has the header `RIVF`, version 1, the number of references, 1024 clusters, 14
/// components, 16 vectors to a block, the number of blocks and zero; numbers that exceed 32 bits
/// lose what is above. The tables follow in their order, whatever their lengths.
#[verifier::spinoff_prover]
pub proof fn law_written_indexes(t: Tables, i: int)
    requires
        0 <= i,
    ensures
        ({
            let b = written(t);
            let a = (32 + 4 * t.centroids.len()) as int;
            let c = (a + 2 * t.bbox_min.len()) as int;
            let d = (c + 2 * t.bbox_max.len()) as int;
            let e = (d + 4 * t.offsets.len()) as int;
            let f = (e + 2 * t.blocks.len()) as int;
            let g = (f + t.labels.len()) as int;
            &&& b.len() == g + 4 * t.orig_ids.len()
            &&& b[0] == 82 && b[1] == 73 && b[2] == 86 && b[3] == 70
            &&& word(b, 4) == 1
            &&& word(b, 8) == t.n_vectors % 0x1_0000_0000
            &&& word(b, 12) == 1024
            &&& word(b, 16) == 14
            &&& word(b, 20) == 16
            &&& word(b, 24) == ((t.n_vectors + 15) / 16) % 0x1_0000_0000
            &&& word(b, 28) == 0
            &&& i < t.centroids.len() ==> word(b, 32 + 4 * i) == t.centroids[i]
            &&& i < t.bbox_min.len() ==> short(b, a + 2 * i) == t.bbox_min[i]
            &&& i < t.bbox_max.len() ==> short(b, c + 2 * i) == t.bbox_max[i]
            &&& i < t.offsets.len() ==> word(b, d + 4 * i) == t.offsets[i]
            &&& i < t.blocks.len() ==> short(b, e + 2 * i) == t.blocks[i]
            &&& i < t.labels.len() ==> b[f + i] == t.labels[i]
            &&& i < t.orig_ids.len() ==> word(b, g + 4 * i) == t.orig_ids[i]
        }),
{
    let b = written(t);
    let a = (32 + 4 * t.centroids.len()) as int;
    let c = (a + 2 * t.bbox_min.len()) as int;
    let d = (c + 2 * t.bbox_max.len()) as int;
    let e = (d + 4 * t.offsets.len()) as int;
    let f = (e + 2 * t.blocks.len()) as int;
    let g = (f + t.labels.len()) as int;
    lemma_header_numbers(t);
    assert(i < t.centroids.len() ==> word(b, 32 + 4 * i) == t.centroids[i]) by {
        if i < t.centroids.len() {
            lemma_tables_written(t);
            lemma_word_among(b, 32, t.centroids, i);
        }
    }
    assert(i < t.bbox_min.len() ==> short(b, a + 2 * i) == t.bbox_min[i]) by {
        if i < t.bbox_min.len() {
            lemma_tables_written(t);
            lemma_short_among(b, a, t.bbox_min, i);
        }
    }
    assert(i < t.bbox_max.len() ==> short(b, c + 2 * i) == t.bbox_max[i]) by {
        if i < t.bbox_max.len() {
            lemma_tables_written(t);
            lemma_short_among(b, c, t.bbox_max, i);
        }
    }
    assert(i < t.offsets.len() ==> word(b, d + 4 * i) == t.offsets[i]) by {
        if i < t.offsets.len() {
            lemma_tables_written(t);
            lemma_word_among(b, d, t.offsets, i);
        }
    }
    assert(i < t.blocks.len() ==> short(b, e + 2 * i) == t.blocks[i]) by {
        if i < t.blocks.len() {
            lemma_tables_written(t);
            lemma_short_among(b, e, t.blocks, i);
        }
    }
    assert(i < t.orig_ids.len() ==> word(b, g + 4 * i) == t.orig_ids[i]) by {
        if i < t.orig_ids.len() {
            lemma_tables_written(t);
            lemma_word_among(b, g, t.orig_ids, i);
        }
    }
    assert(i < t.labels.len() ==> b[f + i] == t.labels[i]) by {
        lemma_tables_written(t);
    }
}

} // verus!
