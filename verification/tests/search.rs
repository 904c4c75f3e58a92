use solution_x::build_index::{
    arrange, build_dataset, cluster_boxes, cluster_offsets, cluster_sizes, transpose_centroids,
};
use solution_x::evaluate::{
    brute_force_top5, candidate, is_approved, label_code, select_top5, Tally,
};
use solution_x::index::{
    is_complete_index, parse_index, write_index, Dataset, Header, IndexError, HEADER_LEN, MAGIC,
    VERSION,
};
use solution_x::ivf::{
    bbox_lower_bound, count_frauds, distance_sq, scan_cluster, search_ranked, search_top5,
    search_top5_brute, Neighbor, Top5, BLOCK_SIZE, DIM, K, NPROBE_PRIMARY, NPROBE_REFINE,
};

fn v(x: i16) -> [i16; DIM] {
    let mut a = [0; DIM];
    a[0] = x;
    a[DIM - 1] = -x;
    a
}

/// Forty references in three clusters; every third one is a fraud.
fn references() -> (Vec<[i16; DIM]>, Vec<u8>, Vec<u32>) {
    let vectors: Vec<[i16; DIM]> = (0..40).map(|i| v(100 * i)).collect();
    let labels: Vec<u8> = (0..40).map(|i| (i % 3 == 0) as u8).collect();
    let assign: Vec<u32> = (0..40).map(|i| [7, 2, 1023][i / 14]).collect();
    (vectors, labels, assign)
}

fn dataset() -> Dataset {
    let (vectors, labels, assign) = references();
    let centroids: Vec<u32> = (0..(K * DIM) as u32).collect();
    build_dataset(&vectors, &labels, &assign, &centroids)
}

/// Keys that rank the given clusters first.
fn keys(first: &[usize]) -> Vec<u32> {
    let mut k: Vec<u32> = (0..K as u32).map(|c| 1000 + c).collect();
    for (rank, &c) in first.iter().enumerate() {
        k[c] = rank as u32;
    }
    k
}

#[test]
fn constants_stand() {
    assert_eq!((K, NPROBE_PRIMARY, NPROBE_REFINE, BLOCK_SIZE, DIM), (1024, 4, 24, 16, 14));
    assert_eq!(&MAGIC, b"RIVF");
    assert_eq!(VERSION, 1);
    assert_eq!(HEADER_LEN, 32);
}

#[test]
fn top5_holds_the_closest() {
    let mut t = Top5::new();
    assert_eq!(t.worst(), u64::MAX);
    assert_eq!(t.labels(), [0; 5]);
    for (d, l) in [(50, 1), (40, 2), (30, 3), (20, 4), (10, 5)] {
        t.try_insert(d, l, d as u32);
    }
    assert_eq!(t.worst(), 50);
    t.try_insert(50, 9, 9);
    assert_eq!(t.labels(), [1, 2, 3, 4, 5]);
    t.try_insert(15, 6, 6);
    assert_eq!(t.labels(), [6, 2, 3, 4, 5]);
    assert_eq!(t.worst(), 40);
    t.try_insert(39, 7, 7);
    assert_eq!(t.labels(), [6, 7, 3, 4, 5]);
    assert_eq!(t.worst(), 39);
}

#[test]
fn order_of_offers_does_not_change_distances() {
    let offers = [9u64, 3, 7, 1, 8, 2, 6];
    let mut a = Top5::new();
    let mut b = Top5::new();
    for &d in offers.iter() {
        a.try_insert(d, d as u8, 0);
    }
    for &d in offers.iter().rev() {
        b.try_insert(d, d as u8, 0);
    }
    let mut la = a.labels();
    let mut lb = b.labels();
    la.sort();
    lb.sort();
    assert_eq!(la, lb);
    assert_eq!(la, [1, 2, 3, 6, 7]);
}

#[test]
fn distances_are_squared() {
    assert_eq!(distance_sq(&v(3), &v(0)), 18);
    assert_eq!(distance_sq(&v(0), &v(-3)), 18);
    assert_eq!(distance_sq(&[i16::MAX; DIM], &[i16::MIN; DIM]), 14 * 65535 * 65535);
}

#[test]
fn frauds_are_labelled_one() {
    assert_eq!(count_frauds(&[0, 1, 2, 1, 0]), 2);
    assert_eq!(count_frauds(&[1; 5]), 5);
}

#[test]
fn clusters_are_counted_and_placed() {
    let assign = [2u32, 0, 2, 1023];
    let sizes = cluster_sizes(&assign);
    assert_eq!(sizes.len(), K);
    assert_eq!((sizes[0], sizes[1], sizes[2], sizes[1023]), (1, 0, 2, 1));
    let offsets = cluster_offsets(&assign);
    assert_eq!(offsets.len(), K + 1);
    assert_eq!((offsets[0], offsets[1], offsets[2], offsets[3]), (0, 1, 1, 3));
    assert_eq!((offsets[1023], offsets[1024]), (3, 4));
    let vectors = [v(1), v(2), v(3), v(4)];
    let a = arrange(&vectors, &[5, 6, 7, 8], &assign, &offsets);
    assert_eq!(&a.labels[..5], &[6, 5, 7, 8, 0]);
    assert_eq!(&a.orig_ids[..5], &[1, 0, 2, 3, 0]);
    assert_eq!(a.blocks.len(), 224);
    assert_eq!(&a.blocks[..5], &[2, 1, 3, 4, 0]);
    assert_eq!(&a.blocks[13 * 16..13 * 16 + 5], &[-2, -1, -3, -4, 0]);
    let (low, high) = cluster_boxes(&offsets, &a.blocks);
    assert_eq!((low[0], high[0]), (2, 2));
    assert_eq!((low[14], high[14]), (i16::MAX, i16::MIN));
    assert_eq!((low[28], high[28], low[41], high[41]), (1, 3, -3, -1));
}

#[test]
fn centroids_are_turned_around() {
    let centroids: Vec<u32> = (0..(K * DIM) as u32).collect();
    let soa = transpose_centroids(&centroids);
    assert_eq!(soa[0], 0);
    assert_eq!(soa[1], 14);
    assert_eq!(soa[K], 1);
    assert_eq!(soa[3 * K + 5], 73);
}

#[test]
fn built_indexes_keep_the_references() {
    let ds = dataset();
    let (vectors, labels, _) = references();
    assert!(ds.is_wf());
    assert!(ds.are_clusters_in_range());
    assert_eq!(ds.n_vectors(), 40);
    assert_eq!(ds.n_blocks, 3);
    for g in 0..40 {
        let i = ds.orig_ids[g] as usize;
        assert_eq!(ds.vector(g), vectors[i]);
        assert_eq!(ds.label(g), labels[i]);
    }
    assert_eq!(ds.vector(47), [0; DIM]);
    let q = v(1230);
    assert_eq!(
        count_frauds(&search_top5_brute(&q, &ds)),
        count_frauds(&brute_force_top5(&q, &vectors, &labels))
    );
}

#[test]
fn indexes_read_back() {
    let ds = dataset();
    let bytes = write_index(
        ds.n_vectors,
        &ds.centroids,
        &ds.bbox_min,
        &ds.bbox_max,
        &ds.offsets,
        &ds.blocks,
        &ds.labels,
        &ds.orig_ids,
    );
    assert_eq!(bytes.len(), 118_820 + 528 * 3);
    assert_eq!(&bytes[..12], &[82, 73, 86, 70, 1, 0, 0, 0, 40, 0, 0, 0]);
    assert_eq!(&bytes[12..24], &[0, 4, 0, 0, 14, 0, 0, 0, 16, 0, 0, 0]);
    assert_eq!(&bytes[24..32], &[3, 0, 0, 0, 0, 0, 0, 0]);
    // The second centroid entry is 14, the third 28.
    assert_eq!(&bytes[36..44], &[14, 0, 0, 0, 28, 0, 0, 0]);
    assert!(is_complete_index(&bytes));
    let back = match parse_index(&bytes) {
        Ok(back) => back,
        Err(_) => panic!("index refused"),
    };
    assert_eq!(back.n_vectors, ds.n_vectors);
    assert_eq!(back.n_blocks, ds.n_blocks);
    assert_eq!(back.centroids, ds.centroids);
    assert_eq!(back.bbox_min, ds.bbox_min);
    assert_eq!(back.bbox_max, ds.bbox_max);
    assert_eq!(back.offsets, ds.offsets);
    assert_eq!(back.blocks, ds.blocks);
    assert_eq!(back.labels, ds.labels);
    assert_eq!(back.orig_ids, ds.orig_ids);
}

#[test]
fn headers_are_spelled_low_byte_first() {
    let h = Header {
        magic: MAGIC,
        version: 0x0403_0201,
        n_vectors: 2,
        k: 3,
        dim: 4,
        block_size: 5,
        n_blocks: 6,
        _pad: 7,
    };
    let mut out = Vec::new();
    h.write(&mut out);
    assert_eq!(out.len(), HEADER_LEN);
    assert_eq!(&out[..8], &[82, 73, 86, 70, 1, 2, 3, 4]);
    let back = Header::read(&out);
    assert_eq!(back.version, 0x0403_0201);
    assert_eq!((back.n_vectors, back.k, back.dim), (2, 3, 4));
    assert_eq!((back.block_size, back.n_blocks, back._pad), (5, 6, 7));
}

fn error_of(bytes: &[u8]) -> IndexError {
    match parse_index(bytes) {
        Ok(_) => panic!("index accepted"),
        Err(e) => e,
    }
}

#[test]
fn other_files_are_refused() {
    let ds = dataset();
    let bytes = write_index(
        ds.n_vectors,
        &ds.centroids,
        &ds.bbox_min,
        &ds.bbox_max,
        &ds.offsets,
        &ds.blocks,
        &ds.labels,
        &ds.orig_ids,
    );
    assert!(error_of(&bytes[..31]) == IndexError::TooSmall);
    let mut bad = bytes.clone();
    bad[3] = b'X';
    assert!(error_of(&bad) == IndexError::BadMagic);
    let mut bad = bytes.clone();
    bad[4] = 2;
    assert!(error_of(&bad) == IndexError::BadVersion);
    let mut bad = bytes.clone();
    bad[16] = 15;
    assert!(error_of(&bad) == IndexError::ParamMismatch { k: 1024, dim: 15, block_size: 16 });
    assert!(!is_complete_index(&bytes[..bytes.len() - 1]));
    assert!(is_complete_index(&bytes[..31]));
}

#[test]
fn clusters_out_of_range_are_told() {
    let mut ds = dataset();
    ds.offsets[K] = 49;
    assert!(!ds.are_clusters_in_range());
    ds.offsets[K] = 0;
    assert!(ds.are_clusters_in_range());
    ds.labels.pop();
    assert!(!ds.is_wf());
}

#[test]
fn a_cluster_is_scanned_alone() {
    let ds = dataset();
    let mut top = Top5::new();
    scan_cluster(&v(0), &ds, 1023, &mut top);
    // References 28 to 32 are the closest of the last cluster; 30 is a fraud.
    assert_eq!(count_frauds(&top.labels()), 1);
    assert_eq!(top.worst(), distance_sq(&v(0), &v(3200)));
    let before = top.worst();
    scan_cluster(&v(0), &ds, 3, &mut top);
    assert_eq!(top.worst(), before);
}

#[test]
fn searches_agree_where_the_probes_cover() {
    let ds = dataset();
    for x in [-50, 640, 1350, 2810, 3900] {
        let q = v(x);
        let found = search_top5(&q, &ds, &keys(&[7, 2, 1023]));
        let brute = search_top5_brute(&q, &ds);
        assert_eq!(count_frauds(&found), count_frauds(&brute));
    }
}

#[test]
fn searches_are_repaired() {
    let ds = dataset();
    // The clusters that are probed first are empty; the boxes of the others are close.
    let far = [10, 11, 12, 13, 14, 15, 16, 17, 7, 2, 1023];
    for x in [-50, 640, 1310, 2870, 3900] {
        let q = v(x);
        let mut found = search_top5(&q, &ds, &keys(&far));
        let mut brute = search_top5_brute(&q, &ds);
        assert_eq!(count_frauds(&found), count_frauds(&brute));
        found.sort();
        brute.sort();
        assert_eq!(found, brute);
    }
    let ranked: Vec<(u32, u32)> = (20..44).map(|c| (0, c)).collect();
    let q = v(640);
    assert_eq!(
        count_frauds(&search_ranked(&q, &ds, &ranked)),
        count_frauds(&search_top5_brute(&q, &ds))
    );
}

#[test]
fn frauds_in_the_last_cluster_are_found() {
    let vectors: Vec<[i16; DIM]> = (1..6).map(|i| v(i)).collect();
    let centroids = vec![0u32; K * DIM];
    let ds = build_dataset(&vectors, &[1; 5], &[1023; 5], &centroids);
    let keys: Vec<u32> = (0..K as u32).collect();
    assert_eq!(search_top5(&v(0), &ds, &keys), [1; 5]);
    assert_eq!(search_top5_brute(&v(0), &ds), [1; 5]);
}

/// Moves the box of a cluster out of reach.
fn banish(ds: &mut Dataset, c: usize) {
    for d in 0..DIM {
        ds.bbox_min[c * DIM + d] = i16::MAX;
        ds.bbox_max[c * DIM + d] = i16::MAX;
    }
}

#[test]
fn far_boxes_are_not_scanned() {
    let mut ds = dataset();
    for c in [7, 2, 1023] {
        banish(&mut ds, c);
    }
    // Slots are vacant, so every box is closer than the worst neighbour.
    assert_eq!(
        count_frauds(&search_top5(&v(0), &ds, &keys(&[10, 11, 12, 13]))),
        count_frauds(&search_top5_brute(&v(0), &ds))
    );
    // The last cluster fills the slots, and the hidden boxes are farther than its neighbours.
    let mut top = Top5::new();
    scan_cluster(&v(0), &ds, 1023, &mut top);
    assert_eq!(search_top5(&v(0), &ds, &keys(&[1023, 10, 11, 12])), top.labels());
}

#[test]
fn borderline_answers_are_refined() {
    let (vectors, mut labels, assign) = references();
    // The cluster probed first gives two frauds; the one that follows later is closer and legit.
    for i in 0..40 {
        labels[i] = (i == 14 || i == 15) as u8;
    }
    let centroids = vec![0u32; K * DIM];
    let mut ds = build_dataset(&vectors, &labels, &assign, &centroids);
    banish(&mut ds, 7);
    let q = v(1000);
    let mut top = Top5::new();
    scan_cluster(&q, &ds, 2, &mut top);
    assert_eq!(count_frauds(&top.labels()), 2);
    // Within the refined range the legit cluster is scanned although its box is out of reach.
    let late = [2, 10, 11, 12, 13, 14, 15, 16, 7];
    assert_eq!(count_frauds(&search_top5(&q, &ds, &keys(&late))), 0);
    // One fraud is not borderline: the legit cluster stays unscanned.
    ds.labels[ds.offsets[2] as usize] = 0;
    assert_eq!(count_frauds(&search_top5(&q, &ds, &keys(&late))), 1);
}

#[test]
fn boxes_bound_distances() {
    let ds = dataset();
    for x in [-500, 0, 777, 1399, 5000] {
        let q = v(x);
        for c in [7usize, 2, 1023] {
            let bound = bbox_lower_bound(&q, &ds, c);
            for g in ds.offsets[c]..ds.offsets[c + 1] {
                assert!(bound <= distance_sq(&q, &ds.vector(g as usize)));
            }
        }
    }
    // The closest point of a box is as far away as the box.
    for x in [-700, 1450, 2100, 9000] {
        let q = v(x);
        let mut p = q;
        for d in 0..DIM {
            p[d] = q[d].clamp(ds.bbox_min[2 * DIM + d], ds.bbox_max[2 * DIM + d]);
        }
        assert_eq!(bbox_lower_bound(&q, &ds, 2), distance_sq(&q, &p));
        assert_eq!(bbox_lower_bound(&q, &ds, 2) == 0, p == q);
    }
    assert_eq!(bbox_lower_bound(&v(0), &ds, 2), 2 * 1400 * 1400);
    assert_eq!(bbox_lower_bound(&v(500), &ds, 7), 0);
    assert_eq!(bbox_lower_bound(&v(1500), &ds, 7), 2 * 200 * 200);
}

#[test]
fn candidates_and_selection() {
    let (vectors, labels, _) = references();
    let q = v(100);
    let c: Neighbor = candidate(&q, &vectors, &labels, 3);
    assert_eq!((c.dist, c.label, c.id), (80_000, 1, 3));
    let all: Vec<Neighbor> = (0..40).map(|i| candidate(&q, &vectors, &labels, i)).collect();
    assert_eq!(select_top5(&all), brute_force_top5(&q, &vectors, &labels));
    assert_eq!(count_frauds(&select_top5(&all)), 2);
    assert_eq!(select_top5(&[]), [0; 5]);
}

#[test]
fn labels_have_codes() {
    assert_eq!(label_code("fraud"), 1);
    assert_eq!(label_code("legit"), 0);
    assert_eq!(label_code("Fraud"), 0);
    assert_eq!(label_code(""), 0);
}

#[test]
fn three_frauds_are_too_many() {
    for k in 0..6usize {
        assert_eq!(is_approved(k), (k as f32 / 5.0) < 0.6);
    }
}

#[test]
fn tallies_count_agreement() {
    let mut t = Tally::new();
    t.record(2, 2, true);
    t.record(3, 2, true);
    t.record(4, 3, true);
    assert_eq!(t.queries, 3);
    assert_eq!(t.ivf_correct, 1);
    assert_eq!(t.brute_correct, 2);
    assert_eq!(t.top5_match, 1);
    assert_eq!(t.decision_match, 2);
}
