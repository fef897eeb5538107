use semantic_memory::similarity::{cosine_similarity, Vector, SCALE};

fn vec_of(coords: Vec<i64>) -> Vector {
    Vector { coords, finite: true }
}

#[test]
fn cosine_in_range_on_samples() {
    let samples = vec![
        (vec![1_000_000i64, 0], vec![0i64, 1_000_000]),
        (vec![3_000_000, 4_000_000], vec![-4_000_000, 3_000_000]),
        (vec![1_000_000, 2_000_000], vec![2_000_000, 1_000_000]),
        (vec![-5_000_000, 7_000_000], vec![9_000_000, -3_000_000]),
    ];
    for (a, b) in samples {
        let s = cosine_similarity(&vec_of(a), &vec_of(b));
        assert!(-SCALE <= s && s <= SCALE);
    }
}

#[test]
fn cosine_of_orthogonal_vectors_is_zero() {
    let a = vec_of(vec![1_000_000, 0]);
    let b = vec_of(vec![0, 1_000_000]);
    assert_eq!(cosine_similarity(&a, &b), 0);
}

#[test]
fn cosine_of_any_nonzero_vector_with_itself_is_full_scale() {
    // self-similarity is exact for every non-zero vector, however small:
    // the denominator norm_sq^2 is a perfect square
    let samples = vec![
        vec![600_000i64, 800_000],
        vec![1, 1],
        vec![123_456, 654_321, 111_111],
        vec![-3, 0, 7],
    ];
    for coords in samples {
        let a = vec_of(coords);
        assert_eq!(cosine_similarity(&a, &a), SCALE);
    }
}

#[test]
fn positive_scaling_moves_the_score_only_by_quantization() {
    // the score measures direction: scaling one argument shifts the result
    // by at most the rounding of the integer square root
    let b = vec_of(vec![1_000_000, 0]);
    let s1 = cosine_similarity(&vec_of(vec![1, 1]), &b);
    let s2 = cosine_similarity(&vec_of(vec![5, 5]), &b);
    assert!((s1 - s2).abs() <= 2);
    let s3 = cosine_similarity(&vec_of(vec![300_000, 400_000]), &b);
    let s4 = cosine_similarity(&vec_of(vec![3_000_000, 4_000_000]), &b);
    assert!((s3 - s4).abs() <= 2);
}

#[test]
fn cosine_of_zero_vector_is_exactly_zero() {
    let z = vec_of(vec![0, 0]);
    let b = vec_of(vec![5_000_000, 7_000_000]);
    assert_eq!(cosine_similarity(&z, &b), 0);
    assert_eq!(cosine_similarity(&b, &z), 0);
    assert_eq!(cosine_similarity(&z, &z), 0);
}

#[test]
fn cosine_of_opposite_vectors_is_negative_full_scale() {
    let a = vec_of(vec![600_000, 800_000]);
    let b = vec_of(vec![-600_000, -800_000]);
    assert_eq!(cosine_similarity(&a, &b), -SCALE);
}
