use tpt_dsp::vq::{
    nearest_vector, nearest_vector_accelerated, vq_decode, vq_encode, DistanceMetric, VqCodebook,
};

const SQUARE_CODEBOOK: [i32; 8] = [
    0, 0, // entry 0
    10, 0, // entry 1
    0, 10, // entry 2
    10, 10, // entry 3
];

#[test]
fn nearest_vector_finds_closest_corner() {
    let (idx, _) = nearest_vector(&SQUARE_CODEBOOK, 2, &[9, 1], DistanceMetric::SquaredEuclidean);
    assert_eq!(idx, 1);
}

#[test]
fn ties_break_toward_lowest_index_and_are_deterministic() {
    let query = [5, 5];
    let (idx1, d1) = nearest_vector(&SQUARE_CODEBOOK, 2, &query, DistanceMetric::SquaredEuclidean);
    let (idx2, d2) = nearest_vector(&SQUARE_CODEBOOK, 2, &query, DistanceMetric::SquaredEuclidean);
    assert_eq!(idx1, 0, "must break the tie toward the lowest index");
    assert_eq!((idx1, d1), (idx2, d2), "repeated calls on the same input must agree");
    assert_eq!(d1, 50);
}

#[test]
fn metrics_can_disagree_on_ranking() {
    let codebook = [4, 4, 0, 7];
    let query = [0, 0];
    let (idx_sq, d_sq) = nearest_vector(&codebook, 2, &query, DistanceMetric::SquaredEuclidean);
    let (idx_l1, d_l1) = nearest_vector(&codebook, 2, &query, DistanceMetric::Manhattan);
    assert_eq!(idx_sq, 0, "squared-Euclidean must prefer (4,4)");
    assert_eq!(idx_l1, 1, "Manhattan must prefer (0,7)");
    assert_eq!(d_sq, 32);
    assert_eq!(d_l1, 7);
}

#[test]
fn accelerated_matches_linear_search() {
    let mut state: u64 = 0xC0FFEE_u64;
    let mut next = move || {
        state = state.wrapping_add(0x9E3779B97F4A7C15);
        let mut z = state;
        z = (z ^ (z >> 30)).wrapping_mul(0xBF58476D1CE4E5B9);
        z = (z ^ (z >> 27)).wrapping_mul(0x94D049BB133111EB);
        z ^= z >> 31;
        (z >> 40) as i32 - (1 << 23)
    };
    let dim = 6;
    let entries = 40;
    let codebook: Vec<i32> = (0..entries * dim).map(|_| next()).collect();
    for metric in [DistanceMetric::SquaredEuclidean, DistanceMetric::Manhattan] {
        for _ in 0..20 {
            let query: Vec<i32> = (0..dim).map(|_| next()).collect();
            let linear = nearest_vector(&codebook, dim, &query, metric);
            let accel = nearest_vector_accelerated(&codebook, dim, &query, metric);
            assert_eq!(linear, accel, "metric={metric:?}");
        }
    }
}

#[test]
fn accelerated_handles_exact_and_extreme_samples() {
    let codebook = [i32::MIN, i32::MAX, 0, 0, i32::MAX, i32::MIN];
    let query = [i32::MAX, i32::MIN];
    for metric in [DistanceMetric::SquaredEuclidean, DistanceMetric::Manhattan] {
        let linear = nearest_vector(&codebook, 2, &query, metric);
        let accel = nearest_vector_accelerated(&codebook, 2, &query, metric);
        assert_eq!(linear, (2, 0));
        assert_eq!(linear, accel);
    }
    let (idx, d) = nearest_vector(&codebook[..2], 2, &query, DistanceMetric::SquaredEuclidean);
    let big = (u32::MAX as u128) * (u32::MAX as u128);
    assert_eq!((idx, d), (0, 2 * big));
}

#[test]
fn encode_then_decode_reconstructs_codewords_exactly() {
    let dim = 2;
    let input = [9, 1, 1, 9];
    let mut indices = [0u32; 2];
    vq_encode(&SQUARE_CODEBOOK, dim, &input, DistanceMetric::SquaredEuclidean, &mut indices);
    assert_eq!(indices, [1, 2]);

    let mut reconstructed = [0i32; 4];
    vq_decode(&SQUARE_CODEBOOK, dim, &indices, &mut reconstructed);
    assert_eq!(reconstructed, [10, 0, 0, 10]);
}

#[test]
fn re_encoding_decoded_output_is_idempotent() {
    let dim = 2;
    let input = [9, 1, 1, 9, 4, 4];
    let n = input.len() / dim;
    let mut indices = vec![0u32; n];
    vq_encode(&SQUARE_CODEBOOK, dim, &input, DistanceMetric::SquaredEuclidean, &mut indices);

    let mut decoded = vec![0i32; input.len()];
    vq_decode(&SQUARE_CODEBOOK, dim, &indices, &mut decoded);

    let mut re_encoded = vec![0u32; n];
    vq_encode(&SQUARE_CODEBOOK, dim, &decoded, DistanceMetric::SquaredEuclidean, &mut re_encoded);
    assert_eq!(indices, re_encoded);
}

#[test]
fn re_encoding_picks_lowest_of_duplicate_codewords() {
    let codebook = [3, 3, 7, 7, 3, 3];
    let input = [3, 4, 6, 7];
    let mut indices = [9u32; 2];
    vq_encode(&codebook, 2, &input, DistanceMetric::Manhattan, &mut indices);
    assert_eq!(indices, [0, 1]);
    let mut decoded = [0i32; 4];
    vq_decode(&codebook, 2, &[2, 1], &mut decoded);
    assert_eq!(decoded, [3, 3, 7, 7]);
    let mut again = [9u32; 2];
    vq_encode(&codebook, 2, &decoded, DistanceMetric::Manhattan, &mut again);
    assert_eq!(again, [0, 1]);
}

#[test]
fn empty_input_encodes_against_any_codebook() {
    let mut out: [u32; 0] = [];
    vq_encode(&[], 3, &[], DistanceMetric::Manhattan, &mut out);
    let mut decoded: [i32; 0] = [];
    vq_decode(&[1, 2, 3], 3, &[], &mut decoded);
}

#[test]
fn vq_codebook_wrapper_matches_free_functions() {
    let cb = VqCodebook::new(2, SQUARE_CODEBOOK.to_vec());
    assert_eq!(cb.dim(), 2);
    assert_eq!(cb.len(), 4);
    assert!(!cb.is_empty());

    let free = nearest_vector(&SQUARE_CODEBOOK, 2, &[9, 1], DistanceMetric::SquaredEuclidean);
    let wrapped = cb.nearest(&[9, 1], DistanceMetric::SquaredEuclidean);
    assert_eq!(free, wrapped);

    let mut indices = [0u32; 2];
    cb.encode(&[1, 9, 11, 12], DistanceMetric::Manhattan, &mut indices);
    assert_eq!(indices, [2, 3]);
    let mut out = [0i32; 4];
    cb.decode(&indices, &mut out);
    assert_eq!(out, [0, 10, 10, 10]);

    let empty = VqCodebook::new(3, Vec::new());
    assert!(empty.is_empty());
    assert_eq!(empty.len(), 0);
}
