use rinha_backend_v2::distance::{squared_distance, squared_distance_fn, squared_distance_scalar};
use rinha_backend_v2::index::{QuantizedVector, DIMS, PADDED_DIMS};

fn next_u32(seed: &mut u64) -> u32 {
    *seed = seed
        .wrapping_mul(6_364_136_223_846_793_005)
        .wrapping_add(1_442_695_040_888_963_407);
    (*seed >> 32) as u32
}

fn next_quantized(seed: &mut u64) -> i16 {
    (next_u32(seed) % 20_001) as i16 - 10_000
}

fn random_vector(seed: &mut u64) -> QuantizedVector {
    let mut vector = [0_i16; PADDED_DIMS];
    for value in vector.iter_mut().take(DIMS) {
        *value = next_quantized(seed);
    }
    vector
}

#[test]
fn dispatch_matches_scalar_for_random_pairs() {
    let mut seed = 0x6176_7832_2d64_6973_u64;
    for _ in 0..10_000 {
        let left = random_vector(&mut seed);
        let right = random_vector(&mut seed);

        assert_eq!(
            squared_distance(&left, &right),
            squared_distance_scalar(&left, &right)
        );
    }
}

#[test]
fn squared_distance_sums_the_first_fourteen_coordinates_only() {
    let mut left = [0_i16; PADDED_DIMS];
    let mut right = [0_i16; PADDED_DIMS];
    left[0] = 3;
    right[0] = -1;
    left[13] = 10_000;
    right[13] = -10_000;
    left[14] = 5;
    right[15] = 7;
    assert_eq!(squared_distance_scalar(&left, &right), 16 + 400_000_000);
    assert_eq!(squared_distance_fn().call(&left, &right), 16 + 400_000_000);
}

#[test]
fn squared_distance_of_equal_vectors_is_zero() {
    let mut seed = 7_u64;
    let v = random_vector(&mut seed);
    assert_eq!(squared_distance(&v, &v), 0);
}
