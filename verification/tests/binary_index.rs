use rinha_backend_v2::binary_index::{
    encode_index, parse_layout, reference_label, BinaryIndexError, HourBucketIndex, IndexFormat, IndexLayout, MmapIndex,
    HEADER_SIZE,
};
use rinha_backend_v2::index::{decide_from_slices, is_kd_tree_valid, QuantizedVector, DIMS, KD_LEAF};

fn next_u32(seed: &mut u64) -> u32 {
    *seed = seed
        .wrapping_mul(6_364_136_223_846_793_005)
        .wrapping_add(1_442_695_040_888_963_407);
    (*seed >> 32) as u32
}

fn next_quantized(seed: &mut u64) -> i16 {
    (next_u32(seed) % 20_001) as i16 - 10_000
}

fn synthetic(seed: &mut u64, count: usize) -> (Vec<QuantizedVector>, Vec<u8>) {
    let mut vectors = Vec::with_capacity(count);
    let mut labels = Vec::with_capacity(count);
    for _ in 0..count {
        let mut vector = [0_i16; 16];
        for value in vector.iter_mut().take(DIMS) {
            *value = next_quantized(seed);
        }
        vectors.push(vector);
        labels.push((next_u32(seed) & 1) as u8);
    }
    (vectors, labels)
}

fn header(magic: &[u8; 8], len: u64, nodes: u64) -> Vec<u8> {
    let mut bytes = vec![0_u8; HEADER_SIZE];
    bytes[0..8].copy_from_slice(magic);
    bytes[8..16].copy_from_slice(&len.to_le_bytes());
    bytes[16..24].copy_from_slice(&nodes.to_le_bytes());
    bytes
}

#[test]
fn short_file_is_too_small() {
    assert!(matches!(parse_layout(&[0_u8; 100]), Err(BinaryIndexError::TooSmall)));
    assert!(matches!(MmapIndex::from_bytes(&[]), Err(BinaryIndexError::TooSmall)));
}

#[test]
fn unknown_magic_is_rejected() {
    let bytes = header(b"RINHIDX9", 0, 0);
    assert!(matches!(parse_layout(&bytes), Err(BinaryIndexError::BadMagic)));
}

#[test]
fn length_mismatch_reports_expected_and_actual() {
    let mut bytes = header(b"RINHIDX1", 2, 0);
    bytes.extend_from_slice(&[0_u8; 10]);
    match parse_layout(&bytes) {
        Err(BinaryIndexError::BadLength { expected, actual }) => {
            assert_eq!(expected, HEADER_SIZE + 2 * 32 + 2);
            assert_eq!(actual, HEADER_SIZE + 10);
        }
        other => panic!("unexpected {other:?}"),
    }
}

#[test]
fn huge_count_is_too_many_vectors() {
    let bytes = header(b"RINHIDX2", u64::MAX, 0);
    assert!(matches!(parse_layout(&bytes), Err(BinaryIndexError::TooManyVectors(n)) if n == u64::MAX));
}

#[test]
fn legacy_layout_has_no_nodes() {
    let mut bytes = header(b"RINHIDX1", 1, 7);
    bytes.extend_from_slice(&[0_u8; 33]);
    assert_eq!(
        parse_layout(&bytes).unwrap(),
        IndexLayout { format: IndexFormat::Legacy, len: 1, node_count: 0, nodes_start: HEADER_SIZE + 33 }
    );
}

#[test]
fn kd_tree_layout_aligns_the_nodes() {
    let mut bytes = header(b"RINHIDX3", 1, 1);
    bytes.extend_from_slice(&[0_u8; 36 + 72]);
    assert_eq!(
        parse_layout(&bytes).unwrap(),
        IndexLayout { format: IndexFormat::KdTree, len: 1, node_count: 1, nodes_start: HEADER_SIZE + 36 }
    );
}

#[test]
fn sorted_file_reads_vectors_and_labels_little_endian() {
    let mut bytes = header(b"RINHIDX2", 2, 0);
    for value in 0..32_i16 {
        bytes.extend_from_slice(&(value - 16).to_le_bytes());
    }
    bytes.extend_from_slice(&[1, 0]);
    let index = MmapIndex::from_bytes(&bytes).unwrap();
    assert!(index.supports_pruned_search());
    assert!(!index.supports_kd_tree());
    assert_eq!(index.len(), 2);
    assert!(!index.is_empty());
    assert_eq!(index.vectors()[0][0], -16);
    assert_eq!(index.vectors()[1][15], 15);
    assert_eq!(index.labels(), &[1, 0]);
    assert!(index.nodes().is_empty());
}

#[test]
fn written_index_reads_back_the_same_pairs_with_a_tree() {
    let mut seed = 0x7772_6974_6521_2121_u64;
    let (vectors, labels) = synthetic(&mut seed, 1000);
    let bytes = encode_index(&vectors, &labels).unwrap();
    assert_eq!(&bytes[0..8], b"RINHIDX3");
    let index = MmapIndex::from_bytes(&bytes).unwrap();
    assert!(index.supports_kd_tree());
    assert_eq!(index.len(), 1000);
    assert!(!index.nodes().is_empty());
    let mut written: Vec<(QuantizedVector, u8)> = vectors.iter().copied().zip(labels.iter().copied()).collect();
    let mut read: Vec<(QuantizedVector, u8)> =
        index.vectors().iter().copied().zip(index.labels().iter().copied()).collect();
    written.sort();
    read.sort();
    assert_eq!(written, read);
    let root = index.nodes()[0];
    assert_eq!((root.start, root.end), (0, 1000));
    assert_ne!(root.left, KD_LEAF);
    for node in index.nodes() {
        for i in node.start..node.end {
            let v = index.vectors()[i as usize];
            for d in 0..DIMS {
                assert!(node.min[d] <= v[d] && v[d] <= node.max[d]);
            }
        }
        if node.left == KD_LEAF {
            assert!(node.end - node.start <= 64);
        }
    }
}

#[test]
fn kd_tree_search_of_a_written_index_matches_full_scan() {
    let mut seed = 0x6b64_7365_6172_6368_u64;
    let (vectors, labels) = synthetic(&mut seed, 2000);
    let index = MmapIndex::from_bytes(&encode_index(&vectors, &labels).unwrap()).unwrap();
    for _ in 0..300 {
        let mut query = [0_i16; 16];
        for value in query.iter_mut().take(DIMS) {
            *value = next_quantized(&mut seed);
        }
        assert_eq!(
            index.decide_quantized(&query),
            decide_from_slices(&query, index.vectors(), index.labels())
        );
    }
}

#[test]
fn empty_index_writes_no_nodes_and_answers_the_fallback() {
    let bytes = encode_index(&[], &[]).unwrap();
    assert_eq!(bytes.len(), HEADER_SIZE);
    let index = MmapIndex::from_bytes(&bytes).unwrap();
    assert!(index.is_empty());
    assert!(index.nodes().is_empty());
    assert_eq!(index.decide_quantized(&[0_i16; 16]).fraud_count, 0);
    assert_eq!(
        index.decide_quantized(&[0_i16; 16]),
        decide_from_slices(&[0_i16; 16], index.vectors(), index.labels())
    );
}

#[test]
fn small_index_is_a_single_leaf() {
    let mut seed = 3_u64;
    let (vectors, labels) = synthetic(&mut seed, 10);
    let index = MmapIndex::from_bytes(&encode_index(&vectors, &labels).unwrap()).unwrap();
    assert_eq!(index.nodes().len(), 1);
    assert_eq!(index.nodes()[0].left, KD_LEAF);
    assert_eq!(index.vectors(), vectors.as_slice());
}

#[test]
fn hour_buckets_answer_from_the_bucket_of_the_query_hour() {
    let mut buckets = Vec::new();
    for hour in 0..24_u8 {
        let vectors = vec![[0_i16; 16]; 5];
        let labels = vec![u8::from(hour == 12); 5];
        buckets.push(MmapIndex::from_bytes(&encode_index(&vectors, &labels).unwrap()).unwrap());
    }
    let index = HourBucketIndex::from_buckets(buckets);
    index.warmup();
    let mut query = [0_i16; 16];
    query[3] = 5_217; // 12 / 23
    assert_eq!(index.decide_quantized(&query).fraud_count, 5);
    query[3] = 0;
    assert_eq!(index.decide_quantized(&query).fraud_count, 0);
    query[3] = -3;
    assert_eq!(index.decide_quantized(&query).fraud_count, 0);
}

#[test]
fn written_trees_pass_the_load_checks_and_broken_ones_do_not() {
    let mut seed = 0x6368_6563_6b21_2121_u64;
    let (vectors, labels) = synthetic(&mut seed, 700);
    let index = MmapIndex::from_bytes(&encode_index(&vectors, &labels).unwrap()).unwrap();
    assert!(is_kd_tree_valid(index.nodes(), index.vectors()));
    let mut nodes = index.nodes().to_vec();
    nodes[0].max[0] = nodes[0].min[0];
    assert!(!is_kd_tree_valid(&nodes, index.vectors()));
    let mut nodes = index.nodes().to_vec();
    nodes[0].end -= 1;
    assert!(!is_kd_tree_valid(&nodes, index.vectors()));
    assert!(is_kd_tree_valid(&[], index.vectors()));
}

#[test]
fn load_checks_accept_written_indices_and_reject_unsorted_ones() {
    let mut seed = 11_u64;
    let (vectors, labels) = synthetic(&mut seed, 300);
    let written = MmapIndex::from_bytes(&encode_index(&vectors, &labels).unwrap()).unwrap();
    assert!(written.check());

    let mut bytes = header(b"RINHIDX2", 2, 0);
    let mut first = [0_i16; 16];
    first[2] = 5;
    for value in first.iter().chain([0_i16; 16].iter()) {
        bytes.extend_from_slice(&value.to_le_bytes());
    }
    bytes.extend_from_slice(&[0, 1]);
    let unsorted = MmapIndex::from_bytes(&bytes).unwrap();
    assert!(!unsorted.check());

    let mut bytes = header(b"RINHIDX1", 1, 0);
    bytes.extend_from_slice(&[0_u8; 32]);
    bytes.push(2);
    let bad_label = MmapIndex::from_bytes(&bytes).unwrap();
    assert!(!bad_label.check());
}

#[test]
fn inner_nodes_split_their_entries_at_the_median_of_the_widest_coordinate() {
    let mut seed = 0x7370_6c69_7421_2121_u64;
    let (vectors, labels) = synthetic(&mut seed, 1500);
    let index = MmapIndex::from_bytes(&encode_index(&vectors, &labels).unwrap()).unwrap();
    let nodes = index.nodes();
    let mut inner = 0;
    for node in nodes {
        if node.left == KD_LEAF {
            continue;
        }
        inner += 1;
        let widths: Vec<i32> = (0..DIMS).map(|d| node.max[d] as i32 - node.min[d] as i32).collect();
        let widest = widths.iter().max().unwrap();
        let dim = (0..DIMS).rev().find(|&d| widths[d] == *widest).unwrap();
        let left = nodes[node.left as usize];
        let right = nodes[node.right as usize];
        let left_max = (left.start..left.end).map(|i| index.vectors()[i as usize][dim]).max().unwrap();
        let right_min = (right.start..right.end).map(|i| index.vectors()[i as usize][dim]).min().unwrap();
        assert!(left_max <= right_min, "node {node:?}");
        assert_eq!(left.end - left.start, (node.end - node.start) / 2);
    }
    assert!(inner > 0);
}

#[test]
fn reference_labels_are_fraud_or_legit() {
    assert_eq!(reference_label("fraud"), Some(1));
    assert_eq!(reference_label("legit"), Some(0));
    assert_eq!(reference_label("Fraud"), None);
    assert_eq!(reference_label(""), None);
}

#[test]
fn written_tree_is_laid_out_in_preorder_with_exact_boxes() {
    let mut seed = 0x6c61_796f_7574_2121_u64;
    let (vectors, labels) = synthetic(&mut seed, 1000);
    let index = MmapIndex::from_bytes(&encode_index(&vectors, &labels).unwrap()).unwrap();
    let nodes = index.nodes();
    // 1000 entries halve three times into eight groups of 125, each split into leaves of 62 and 63
    assert_eq!(nodes.len(), 31);
    for (j, node) in nodes.iter().enumerate() {
        for d in 0..DIMS {
            let coords: Vec<i16> = (node.start..node.end).map(|i| index.vectors()[i as usize][d]).collect();
            assert_eq!(node.min[d], *coords.iter().min().unwrap());
            assert_eq!(node.max[d], *coords.iter().max().unwrap());
        }
        let count = node.end - node.start;
        assert_eq!(node.left == KD_LEAF, count <= 64);
        if node.left != KD_LEAF {
            assert_eq!(node.left as usize, j + 1);
            let left = nodes[node.left as usize];
            let right = nodes[node.right as usize];
            assert_eq!((left.start, left.end), (node.start, node.start + count / 2));
            assert_eq!((right.start, right.end), (node.start + count / 2, node.end));
        }
    }
}
