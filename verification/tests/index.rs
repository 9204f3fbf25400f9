use rinha_backend_v2::index::{
    all_in_quantized_range, are_labels_binary, decide_from_slices, decide_from_soa, decide_kd_tree,
    decide_pruned_by_dim2, is_in_quantized_range, is_sorted_by_dim2, Decision, KdNode,
    QuantizedVector, ReferenceIndex, DIMS, KD_LEAF,
};

fn quantize(vector: &[f32; DIMS]) -> QuantizedVector {
    let mut quantized = [0_i16; 16];
    for idx in 0..DIMS {
        let value = vector[idx];
        let normalized = if value < 0.0 { -1.0 } else { value.clamp(0.0, 1.0) };
        quantized[idx] = (normalized * 10_000.0).round() as i16;
    }
    quantized
}

fn vector(value: f32) -> [f32; 14] {
    [value; 14]
}

fn index_of(records: &[([f32; 14], bool)]) -> ReferenceIndex {
    let vectors = records.iter().map(|(v, _)| quantize(v)).collect();
    let labels = records.iter().map(|(_, fraud)| u8::from(*fraud)).collect();
    ReferenceIndex::from_quantized(vectors, labels)
}

fn fraud_score(decision: &Decision) -> f32 {
    decision.fraud_count as f32 / 5.0
}

#[test]
fn index_uses_five_nearest_neighbors_and_denies_at_threshold() {
    let index = index_of(&[
        (vector(0.001), true),
        (vector(0.002), true),
        (vector(0.003), true),
        (vector(0.004), false),
        (vector(0.005), false),
        (vector(0.900), false),
    ]);

    let decision = index.decide_quantized(&quantize(&vector(0.0)));

    assert_eq!(decision.fraud_count, 3);
    assert_eq!(fraud_score(&decision), 0.6);
    assert!(
        !decision.approved,
        "score 0.6 must be denied because approval requires score < 0.6"
    );
}

#[test]
fn index_approves_when_only_two_of_five_neighbors_are_fraud() {
    let index = index_of(&[
        (vector(0.001), true),
        (vector(0.002), true),
        (vector(0.003), false),
        (vector(0.004), false),
        (vector(0.005), false),
        (vector(0.900), true),
    ]);

    let decision = index.decide_quantized(&quantize(&vector(0.0)));

    assert_eq!(decision.fraud_count, 2);
    assert_eq!(fraud_score(&decision), 0.4);
    assert!(decision.approved);
}

fn sort_by_dim2(vectors: &mut [QuantizedVector], labels: &mut [u8]) {
    let mut entries = vectors
        .iter()
        .copied()
        .zip(labels.iter().copied())
        .collect::<Vec<_>>();
    entries.sort_by_key(|(vector, _)| vector[2]);

    for (idx, (vector, label)) in entries.into_iter().enumerate() {
        vectors[idx] = vector;
        labels[idx] = label;
    }
}

fn next_u32(seed: &mut u64) -> u32 {
    *seed = seed
        .wrapping_mul(6_364_136_223_846_793_005)
        .wrapping_add(1_442_695_040_888_963_407);
    (*seed >> 32) as u32
}

fn next_quantized(seed: &mut u64) -> i16 {
    (next_u32(seed) % 20_001) as i16 - 10_000
}

fn quantized_with_dim2(dim2: i16) -> QuantizedVector {
    let mut vector = [0_i16; 16];
    vector[2] = dim2;
    vector
}

fn vector_with_dims(dim2: i16, dim0: i16) -> QuantizedVector {
    let mut vector = [0_i16; 16];
    vector[0] = dim0;
    vector[2] = dim2;
    vector
}

fn synthetic(seed: &mut u64, count: usize) -> (Vec<QuantizedVector>, Vec<u8>) {
    let mut vectors = Vec::with_capacity(count);
    let mut labels = Vec::with_capacity(count);
    for _ in 0..count {
        let mut vector = [0_i16; 16];
        for value in vector.iter_mut().take(DIMS) {
            *value = next_quantized(seed);
        }
        vectors.push(vector);
        labels.push((next_u32(seed) & 1) as u8);
    }
    (vectors, labels)
}

fn random_query(seed: &mut u64) -> QuantizedVector {
    let mut query = [0_i16; 16];
    for value in query.iter_mut().take(DIMS) {
        *value = next_quantized(seed);
    }
    query
}

#[test]
fn pruned_search_matches_full_scan_for_sorted_synthetic_queries() {
    let mut seed = 0x7269_6e68_612d_3236_u64;
    let (mut vectors, mut labels) = synthetic(&mut seed, 4096);
    sort_by_dim2(&mut vectors, &mut labels);

    for query_idx in 0..1000 {
        let query = random_query(&mut seed);

        let expected = decide_from_slices(&query, &vectors, &labels);
        let actual = decide_pruned_by_dim2(&query, &vectors, &labels);
        assert_eq!(actual, expected, "synthetic query {query_idx}");
    }
}

#[test]
fn pruned_search_matches_full_scan_when_tie_order_matters() {
    let query = quantized_with_dim2(1_000);
    let mut vectors = vec![
        vector_with_dims(800, 0),
        vector_with_dims(900, 174),
        vector_with_dims(1_100, 174),
        vector_with_dims(1_200, 0),
        vector_with_dims(1_300, 0),
        vector_with_dims(1_400, 0),
    ];
    let mut labels = vec![1, 0, 0, 0, 0, 0];
    sort_by_dim2(&mut vectors, &mut labels);

    let expected = decide_from_slices(&query, &vectors, &labels);
    let actual = decide_pruned_by_dim2(&query, &vectors, &labels);

    assert_eq!(actual, expected);
    assert_eq!(
        actual.fraud_count, 1,
        "lower sorted index must win equal-distance ties even when pruned traversal visits it later"
    );
}

#[test]
fn full_scan_prefers_the_lower_index_among_equal_distances() {
    let query = [0_i16; 16];
    let vectors = vec![[0_i16; 16]; 7];
    let labels = vec![1, 1, 1, 0, 0, 1, 1];
    let decision = decide_from_slices(&query, &vectors, &labels);
    assert_eq!(decision, Decision { approved: false, fraud_count: 3 });
}

#[test]
fn full_scan_of_fewer_than_five_references_counts_them_all() {
    let query = [0_i16; 16];
    let vectors = vec![vector_with_dims(5, 5), vector_with_dims(-5, 5)];
    let decision = decide_from_slices(&query, &vectors, &[1, 1]);
    assert_eq!(decision, Decision { approved: true, fraud_count: 2 });
    let empty = decide_from_slices(&query, &[], &[]);
    assert_eq!(empty, Decision::safe_fallback());
}

#[test]
fn decision_from_fraud_count_approves_below_three() {
    for count in 0..=5_u8 {
        let decision = Decision::from_fraud_count(count);
        assert_eq!(decision.fraud_count, count);
        assert_eq!(decision.approved, count < 3);
    }
    assert_eq!(Decision::safe_fallback(), Decision { approved: true, fraud_count: 0 });
}

#[test]
fn reference_index_keeps_vectors_and_labels_in_order() {
    let vectors = vec![vector_with_dims(1, 2), vector_with_dims(3, 4)];
    let index = ReferenceIndex::from_quantized(vectors.clone(), vec![0, 1]);
    assert_eq!(index.len(), 2);
    assert!(!index.is_empty());
    assert_eq!(index.vectors(), vectors.as_slice());
    assert_eq!(index.labels(), &[0, 1]);
    let empty = ReferenceIndex::from_quantized(Vec::new(), Vec::new());
    assert!(empty.is_empty());
    assert_eq!(empty.len(), 0);
}

#[test]
fn column_search_matches_row_search() {
    let mut seed = 0x636f_6c75_6d6e_7321_u64;
    let (vectors, labels) = synthetic(&mut seed, 300);
    let columns: Vec<Vec<i16>> = (0..DIMS).map(|d| vectors.iter().map(|v| v[d]).collect()).collect();
    let dims: [&[i16]; DIMS] = std::array::from_fn(|d| columns[d].as_slice());
    for _ in 0..200 {
        let query = random_query(&mut seed);
        assert_eq!(
            decide_from_soa(&query, dims, &labels),
            decide_from_slices(&query, &vectors, &labels)
        );
    }
}

#[test]
fn kd_tree_without_nodes_answers_the_fallback() {
    let vectors = vec![vector_with_dims(1, 1); 6];
    let labels = vec![1; 6];
    let decision = decide_kd_tree(&[0_i16; 16], &vectors, &labels, &[]);
    assert_eq!(decision, Decision::safe_fallback());
}

#[test]
fn kd_tree_with_a_single_leaf_matches_full_scan() {
    let mut seed = 0x6b64_2d6c_6561_6621_u64;
    let (vectors, labels) = synthetic(&mut seed, 40);
    let mut min = [i16::MAX; DIMS];
    let mut max = [i16::MIN; DIMS];
    for v in &vectors {
        for d in 0..DIMS {
            min[d] = min[d].min(v[d]);
            max[d] = max[d].max(v[d]);
        }
    }
    let nodes = [KdNode { start: 0, end: 40, left: KD_LEAF, right: KD_LEAF, min, max }];
    for _ in 0..100 {
        let query = random_query(&mut seed);
        assert_eq!(
            decide_kd_tree(&query, &vectors, &labels, &nodes),
            decide_from_slices(&query, &vectors, &labels)
        );
    }
}

#[test]
fn range_checks_accept_quantized_data_only() {
    let mut v = [0_i16; 16];
    v[13] = 10_000;
    v[15] = i16::MIN;
    assert!(is_in_quantized_range(&v));
    v[0] = -10_001;
    assert!(!is_in_quantized_range(&v));
    assert!(all_in_quantized_range(&[[0_i16; 16], [10_000; 16]]));
    assert!(!all_in_quantized_range(&[[0_i16; 16], [10_001; 16]]));
    assert!(are_labels_binary(&[0, 1, 1, 0]));
    assert!(!are_labels_binary(&[0, 2]));
    assert!(is_sorted_by_dim2(&[vector_with_dims(1, 9), vector_with_dims(1, 0), vector_with_dims(4, 0)]));
    assert!(!is_sorted_by_dim2(&[vector_with_dims(2, 0), vector_with_dims(1, 0)]));
    assert!(is_sorted_by_dim2(&[]));
}
