use semantic_memory::ranking::top_k;
use semantic_memory::similarity::{Vector, SCALE};
use semantic_memory::store::{
    generate_embeddings, key_label, retrieve_memory, Embeddings, MemoryError, MemoryStore,
};

fn vec_of(coords: Vec<i64>) -> Vector {
    Vector { coords, finite: true }
}

fn strings(items: Vec<&str>) -> Vec<String> {
    items.into_iter().map(|s| s.to_string()).collect()
}

/// The scenario store: A points along the first axis, B along the second,
/// C close to A.
fn scenario_store() -> MemoryStore {
    let mut store = MemoryStore::new();
    let r = store.add_memory(
        &strings(vec!["A", "B", "C"]),
        Embeddings::Many(vec![
            vec_of(vec![1_000_000, 0]),
            vec_of(vec![0, 1_000_000]),
            vec_of(vec![900_000, 100_000]),
        ]),
    );
    assert!(r.is_ok());
    store
}

#[test]
fn generate_embeddings_handles_both_shapes() {
    let one = generate_embeddings(Embeddings::One(vec_of(vec![1, 2])));
    assert_eq!(one.len(), 1);
    assert_eq!(one[0].coords, vec![1, 2]);
    let many = generate_embeddings(Embeddings::Many(vec![
        vec_of(vec![1]),
        vec_of(vec![2]),
    ]));
    assert_eq!(many.len(), 2);
    assert_eq!(many[0].coords, vec![1]);
    assert_eq!(many[1].coords, vec![2]);
}

#[test]
fn add_memory_batch_mints_sequential_keys() {
    // a summary that splits into two chunks allocates two distinct,
    // sequential keys and advances the counter by exactly two
    let mut store = MemoryStore::new();
    let r = store.add_memory(
        &strings(vec!["first fact", "second fact"]),
        Embeddings::Many(vec![vec_of(vec![1_000_000, 0]), vec_of(vec![0, 1_000_000])]),
    );
    assert!(r.is_ok());
    assert_eq!(store.len(), 2);
    assert_eq!(store.next_key, 2);
    assert_eq!(store.vectors[0].0, 0);
    assert_eq!(store.vectors[1].0, 1);
    assert_eq!(store.texts[0].0, 0);
    assert_eq!(store.texts[1].0, 1);
    assert_eq!(store.texts[0].1, "first fact");
    assert_eq!(store.texts[1].1, "second fact");
}

#[test]
fn add_memory_one_shape_advances_counter_by_one() {
    let mut store = MemoryStore::new();
    let r = store.add_memory(
        &strings(vec!["only fact"]),
        Embeddings::One(vec_of(vec![1_000_000, 0])),
    );
    assert!(r.is_ok());
    assert_eq!(store.len(), 1);
    assert_eq!(store.next_key, 1);
    let r2 = store.add_memory(
        &strings(vec!["later fact"]),
        Embeddings::One(vec_of(vec![0, 1_000_000])),
    );
    assert!(r2.is_ok());
    assert_eq!(store.next_key, 2);
    assert_eq!(store.vectors[1].0, 1);
}

#[test]
fn add_memory_rejects_empty_embedding_result() {
    let mut store = MemoryStore::new();
    let r = store.add_memory(&strings(vec!["fact"]), Embeddings::Many(vec![]));
    assert_eq!(r, Err(MemoryError::EmptyEmbeddingResult));
    assert_eq!(store.len(), 0);
    assert_eq!(store.next_key, 0);
}

#[test]
fn add_memory_rejects_mismatched_batch_shape() {
    let mut store = MemoryStore::new();
    let r = store.add_memory(
        &strings(vec!["fact"]),
        Embeddings::Many(vec![vec_of(vec![1, 0]), vec_of(vec![0, 1])]),
    );
    assert_eq!(r, Err(MemoryError::UpstreamError));
    assert_eq!(store.len(), 0);
}

#[test]
fn add_memory_rejects_dimension_mismatch_atomically() {
    let mut store = MemoryStore::new();
    let r = store.add_memory(
        &strings(vec!["fact"]),
        Embeddings::One(vec_of(vec![1_000_000, 0])),
    );
    assert!(r.is_ok());
    // second batch: first vector fits, second does not — nothing is written
    let r2 = store.add_memory(
        &strings(vec!["good", "bad"]),
        Embeddings::Many(vec![vec_of(vec![1, 2]), vec_of(vec![1, 2, 3])]),
    );
    assert_eq!(r2, Err(MemoryError::DimensionMismatch));
    assert_eq!(store.len(), 1);
    assert_eq!(store.next_key, 1);
}

#[test]
fn top_k_returns_all_when_fewer_candidates() {
    let store = scenario_store();
    let query = vec_of(vec![1_000_000, 0]);
    let ranked = top_k(&query, &store.vectors, 10);
    assert_eq!(ranked.len(), 3);
    // sorted descending: A (full scale) > C > B (zero)
    assert_eq!(ranked[0].0, 0);
    assert_eq!(ranked[0].1, SCALE);
    assert_eq!(ranked[1].0, 2);
    assert_eq!(ranked[2].0, 1);
    assert_eq!(ranked[2].1, 0);
    assert!(ranked[0].1 >= ranked[1].1 && ranked[1].1 >= ranked[2].1);
}

#[test]
fn top_k_returns_exactly_k_without_duplicate_keys() {
    let store = scenario_store();
    let query = vec_of(vec![1_000_000, 0]);
    let ranked = top_k(&query, &store.vectors, 2);
    assert_eq!(ranked.len(), 2);
    assert_ne!(ranked[0].0, ranked[1].0);
    assert!(ranked[0].1 >= ranked[1].1);
}

#[test]
fn top_k_on_no_candidates_is_empty() {
    let query = vec_of(vec![1_000_000, 0]);
    let ranked = top_k(&query, &Vec::new(), 5);
    assert_eq!(ranked.len(), 0);
}

#[test]
fn retrieve_memory_scenario_returns_nearest_text() {
    let store = scenario_store();
    let r = retrieve_memory(&store, Embeddings::One(vec_of(vec![1_000_000, 0])), 1);
    assert_eq!(r, Ok(vec!["A".to_string()]));
}

#[test]
fn retrieve_memory_on_empty_store_is_success() {
    let store = MemoryStore::new();
    let r = retrieve_memory(&store, Embeddings::One(vec_of(vec![1_000_000, 0])), 3);
    assert_eq!(r, Ok(vec![]));
}

#[test]
fn retrieve_memory_without_query_vectors_is_an_error() {
    let store = scenario_store();
    let r = retrieve_memory(&store, Embeddings::Many(vec![]), 3);
    assert_eq!(r, Err(MemoryError::EmptyEmbeddingResult));
}

#[test]
fn retrieve_memory_deduplicates_across_query_vectors() {
    let store = scenario_store();
    // both query vectors rank A first: its text appears once
    let r = retrieve_memory(
        &store,
        Embeddings::Many(vec![vec_of(vec![1_000_000, 0]), vec_of(vec![950_000, 50_000])]),
        1,
    );
    assert_eq!(r, Ok(vec!["A".to_string()]));
}

#[test]
fn retrieve_memory_every_ranked_key_resolves() {
    let store = scenario_store();
    let r = retrieve_memory(&store, Embeddings::One(vec_of(vec![300_000, 400_000])), 3);
    let texts = r.expect("well-formed store resolves every ranked key");
    assert_eq!(texts.len(), 3);
    for t in &texts {
        assert!(t == "A" || t == "B" || t == "C");
    }
}

#[test]
fn retrieve_memory_reports_missing_text_on_broken_store() {
    // a store whose vector key has no text counterpart is a fatal defect:
    // retrieval surfaces it instead of dropping the key
    let store = MemoryStore {
        vectors: vec![(0, vec_of(vec![1_000_000, 0]))],
        texts: Vec::new(),
        next_key: 1,
        dim: Some(2),
    };
    let r = retrieve_memory(&store, Embeddings::One(vec_of(vec![1_000_000, 0])), 1);
    assert_eq!(r, Err(MemoryError::MissingText));
}

#[test]
fn nan_carrier_candidate_is_excluded_from_ranking() {
    // a vector whose source embedding held a NaN is carried as non-finite
    // and never ranked; ranking the rest does not fault
    let mut store = MemoryStore::new();
    let r = store.add_memory(
        &strings(vec!["good", "poisoned"]),
        Embeddings::Many(vec![
            vec_of(vec![1_000_000, 0]),
            Vector { coords: vec![0, 0], finite: false },
        ]),
    );
    assert!(r.is_ok());
    let ranked = top_k(&vec_of(vec![1_000_000, 0]), &store.vectors, 5);
    assert_eq!(ranked.len(), 1);
    assert_eq!(ranked[0].0, 0);
    let texts = retrieve_memory(&store, Embeddings::One(vec_of(vec![1_000_000, 0])), 5);
    assert_eq!(texts, Ok(vec!["good".to_string()]));
}

#[test]
fn pass_through_summary_creates_one_record_per_sentence() {
    // a pass-through summarizer hands the raw text on; the chunker splits it
    // into two sentences, the embedder answers one vector per sentence, and
    // exactly two records with sequential keys appear
    let summary = "I like cats. I also like dogs.";
    let chunks = semantic_memory::chunking::text_to_vec(summary, &Vec::new());
    assert_eq!(chunks.len(), 2);
    let mut store = MemoryStore::new();
    let before = store.next_key;
    let r = store.add_memory(
        &chunks,
        Embeddings::Many(vec![vec_of(vec![1_000_000, 0]), vec_of(vec![0, 1_000_000])]),
    );
    assert!(r.is_ok());
    assert_eq!(store.len(), 2);
    assert_eq!(store.next_key, before + 2);
    assert_eq!(store.texts[0].1, "I like cats.");
    assert_eq!(store.texts[1].1, "I also like dogs.");
    assert_eq!(store.vectors[0].0 + 1, store.vectors[1].0);
}

#[test]
fn key_label_renders_prefix_and_decimal_suffix() {
    assert_eq!(key_label(0), "user_info_0");
    assert_eq!(key_label(7), "user_info_7");
    assert_eq!(key_label(42), "user_info_42");
    assert_eq!(key_label(1007), "user_info_1007");
}

#[test]
fn batch_keys_carry_sequential_labels() {
    let store = scenario_store();
    assert_eq!(key_label(store.vectors[0].0), "user_info_0");
    assert_eq!(key_label(store.vectors[1].0), "user_info_1");
    assert_eq!(key_label(store.vectors[2].0), "user_info_2");
}

#[test]
fn lookup_text_finds_only_present_keys() {
    let store = scenario_store();
    assert_eq!(store.lookup_text(1), Some("B".to_string()));
    assert_eq!(store.lookup_text(7), None);
}
