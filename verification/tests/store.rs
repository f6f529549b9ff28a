use embedding_store::error::StoreError;
use embedding_store::store::{QueryResult, VectorStore};

fn bits(components: &[f32]) -> Vec<u32> {
    components.iter().map(|c| c.to_bits()).collect()
}

fn component(bytes: &[u8]) -> f64 {
    f32::from_le_bytes([bytes[0], bytes[1], bytes[2], bytes[3]]) as f64
}

/// Euclidean distance between two packed vectors, as the bits of a double.
fn euclidean(a: &[u8], b: &[u8]) -> u64 {
    let mut sum = 0.0f64;
    for (x, y) in a.chunks_exact(4).zip(b.chunks_exact(4)) {
        let difference = component(x) - component(y);
        sum += difference * difference;
    }
    sum.sqrt().to_bits()
}

/// A metric under which all vectors are equally far apart.
fn level(_a: &[u8], _b: &[u8]) -> u64 {
    7
}

/// A metric that tells equal vectors from different ones.
fn same(a: &[u8], b: &[u8]) -> u64 {
    if a == b {
        0
    } else {
        1
    }
}

fn contents(results: &[QueryResult]) -> Vec<String> {
    results.iter().map(|r| r.content.clone()).collect()
}

#[test]
fn round_trip_returns_the_stored_content() {
    let mut store = VectorStore::new(4, euclidean);
    let id = store.insert("hello", &bits(&[1.0, 0.0, 0.0, 0.0])).unwrap();
    let results = store.query(&bits(&[1.0, 0.0, 0.0, 0.0]), 1).unwrap();
    assert_eq!(results.len(), 1);
    assert_eq!(results[0].content, "hello");
    assert_eq!(results[0].item_id, id);
    assert_eq!(f64::from_bits(results[0].distance), 0.0);
}

#[test]
fn cat_and_kitten_are_nearer_than_dog() {
    let mut store = VectorStore::new(4, euclidean);
    store.insert("cat", &bits(&[1.0, 0.0, 0.0, 0.0])).unwrap();
    store.insert("dog", &bits(&[0.0, 1.0, 0.0, 0.0])).unwrap();
    store.insert("kitten", &bits(&[0.9, 0.1, 0.0, 0.0])).unwrap();
    let results = store.query(&bits(&[1.0, 0.0, 0.0, 0.0]), 2).unwrap();
    assert_eq!(contents(&results), vec!["cat".to_string(), "kitten".to_string()]);
    assert_eq!(results[0].item_id, 1);
    assert_eq!(results[1].item_id, 3);
    assert_eq!(f64::from_bits(results[0].distance), 0.0);
    let expected = ((0.9f32 as f64 - 1.0) * (0.9f32 as f64 - 1.0) + (0.1f32 as f64) * (0.1f32 as f64)).sqrt();
    assert_eq!(f64::from_bits(results[1].distance), expected);
    let all = store.query(&bits(&[1.0, 0.0, 0.0, 0.0]), 3).unwrap();
    assert_eq!(contents(&all), vec!["cat".to_string(), "kitten".to_string(), "dog".to_string()]);
    assert_eq!(f64::from_bits(all[2].distance), 2.0f64.sqrt());
}

#[test]
fn a_stored_vector_is_its_own_nearest_neighbour() {
    let mut store = VectorStore::new(3, euclidean);
    store.insert("north", &bits(&[0.0, 1.0, 0.0])).unwrap();
    store.insert("east", &bits(&[1.0, 0.0, 0.0])).unwrap();
    let id = store.insert("up", &bits(&[0.0, 0.0, 1.0])).unwrap();
    let results = store.query(&bits(&[0.0, 0.0, 1.0]), 1).unwrap();
    assert_eq!(
        results,
        vec![QueryResult { item_id: id, distance: 0, content: "up".to_string() }]
    );
}

#[test]
fn every_stored_vector_is_found_by_itself() {
    let vectors: [[f32; 3]; 4] = [[0.0, 1.0, 0.0], [1.0, 0.0, 0.0], [0.0, 0.0, 1.0], [0.5, 0.5, 0.5]];
    let names = ["north", "east", "up", "middle"];
    let mut store = VectorStore::new(3, euclidean);
    let mut ids = Vec::new();
    for (name, vector) in names.iter().zip(vectors.iter()) {
        ids.push(store.insert(name, &bits(vector)).unwrap());
    }
    for ((name, vector), id) in names.iter().zip(vectors.iter()).zip(ids.iter()) {
        let results = store.query(&bits(vector), 1).unwrap();
        assert_eq!(
            results,
            vec![QueryResult { item_id: *id, distance: 0, content: name.to_string() }]
        );
    }
}

#[test]
fn asking_for_more_than_is_stored_returns_all() {
    let mut store = VectorStore::new(2, euclidean);
    store.insert("a", &bits(&[0.0, 0.0])).unwrap();
    store.insert("b", &bits(&[3.0, 4.0])).unwrap();
    let results = store.query(&bits(&[0.0, 0.0]), 10).unwrap();
    assert_eq!(results.len(), 2);
    assert_eq!(contents(&results), vec!["a".to_string(), "b".to_string()]);
    assert_eq!(f64::from_bits(results[1].distance), 5.0);
    let exact = store.query(&bits(&[0.0, 0.0]), 2).unwrap();
    assert_eq!(exact, results);
}

#[test]
fn asking_for_none_returns_none() {
    let mut store = VectorStore::new(2, euclidean);
    store.insert("a", &bits(&[0.0, 0.0])).unwrap();
    assert_eq!(store.query(&bits(&[0.0, 0.0]), 0), Ok(vec![]));
}

#[test]
fn empty_store_yields_no_match() {
    let store = VectorStore::new(4, euclidean);
    assert_eq!(store.query(&bits(&[0.5, 0.25, 0.0, 1.0]), 5), Ok(vec![]));
    assert_eq!(store.item_count(), 0);
    assert_eq!(store.embedding_count(), 0);
}

#[test]
fn insert_refuses_a_vector_of_another_length() {
    let mut store = VectorStore::new(4, euclidean);
    store.insert("kept", &bits(&[1.0, 0.0, 0.0, 0.0])).unwrap();
    assert_eq!(store.insert("short", &bits(&[1.0, 0.0, 0.0])), Err(StoreError::DimensionMismatch));
    assert_eq!(store.insert("long", &bits(&[1.0, 0.0, 0.0, 0.0, 0.0])), Err(StoreError::DimensionMismatch));
    assert_eq!(store.insert("empty", &[]), Err(StoreError::DimensionMismatch));
    assert_eq!(store.item_count(), 1);
    assert_eq!(store.embedding_count(), 1);
    let results = store.query(&bits(&[1.0, 0.0, 0.0, 0.0]), 5).unwrap();
    assert_eq!(contents(&results), vec!["kept".to_string()]);
    assert_eq!(store.insert("next", &bits(&[0.0, 0.0, 0.0, 1.0])), Ok(2));
}

#[test]
fn query_refuses_a_vector_of_another_length() {
    let mut store = VectorStore::new(4, euclidean);
    store.insert("kept", &bits(&[1.0, 0.0, 0.0, 0.0])).unwrap();
    assert_eq!(store.query(&bits(&[1.0, 0.0]), 1), Err(StoreError::DimensionMismatch));
    assert_eq!(store.query(&[], 1), Err(StoreError::DimensionMismatch));
}

#[test]
fn results_rise_by_distance() {
    let mut store = VectorStore::new(1, euclidean);
    for (name, at) in [("five", 5.0f32), ("one", 1.0), ("four", 4.0), ("two", 2.0), ("three", 3.0)] {
        store.insert(name, &bits(&[at])).unwrap();
    }
    let results = store.query(&bits(&[0.0]), 4).unwrap();
    assert_eq!(
        contents(&results),
        vec!["one".to_string(), "two".to_string(), "three".to_string(), "four".to_string()]
    );
    let distances: Vec<f64> = results.iter().map(|r| f64::from_bits(r.distance)).collect();
    assert_eq!(distances, vec![1.0, 2.0, 3.0, 4.0]);
    let ids: Vec<i64> = results.iter().map(|r| r.item_id).collect();
    assert_eq!(ids, vec![2, 4, 5, 3]);
}

#[test]
fn equal_distances_rise_by_identifier() {
    let mut store = VectorStore::new(1, euclidean);
    store.insert("right", &bits(&[1.0])).unwrap();
    store.insert("far", &bits(&[9.0])).unwrap();
    store.insert("left", &bits(&[-1.0])).unwrap();
    store.insert("again", &bits(&[1.0])).unwrap();
    let results = store.query(&bits(&[0.0]), 3).unwrap();
    let ids: Vec<i64> = results.iter().map(|r| r.item_id).collect();
    assert_eq!(ids, vec![1, 3, 4]);
    assert_eq!(
        contents(&results),
        vec!["right".to_string(), "left".to_string(), "again".to_string()]
    );
    let two = store.query(&bits(&[0.0]), 2).unwrap();
    assert_eq!(two, results[..2].to_vec());
}

#[test]
fn a_level_metric_ranks_by_identifier() {
    let mut store = VectorStore::new(1, level);
    for name in ["a", "b", "c", "d"] {
        store.insert(name, &bits(&[0.0])).unwrap();
    }
    let results = store.query(&bits(&[1.0]), 3).unwrap();
    assert_eq!(
        results,
        vec![
            QueryResult { item_id: 1, distance: 7, content: "a".to_string() },
            QueryResult { item_id: 2, distance: 7, content: "b".to_string() },
            QueryResult { item_id: 3, distance: 7, content: "c".to_string() },
        ]
    );
}

#[test]
fn identifiers_count_up_from_one() {
    let mut store = VectorStore::new(1, euclidean);
    assert_eq!(store.insert("a", &bits(&[0.0])), Ok(1));
    assert_eq!(store.insert("b", &bits(&[0.0])), Ok(2));
    assert_eq!(store.insert("bad", &bits(&[0.0, 0.0])), Err(StoreError::DimensionMismatch));
    assert_eq!(store.insert("c", &bits(&[0.0])), Ok(3));
    assert_eq!(store.item_count(), 3);
    assert_eq!(store.embedding_count(), 3);
    assert_eq!(store.dimension(), 1);
}

#[test]
fn items_and_embeddings_are_found_by_identifier() {
    let mut store = VectorStore::new(2, euclidean);
    store.insert("first", &bits(&[1.0, 2.0])).unwrap();
    store.insert("second", &bits(&[-0.5, 0.0])).unwrap();
    let item = store.item(2).unwrap();
    assert_eq!(item.id(), 2);
    assert_eq!(item.content(), "second");
    let record = store.embedding(1).unwrap();
    assert_eq!(record.item_id(), 1);
    assert_eq!(record.vector(), &[0x00, 0x00, 0x80, 0x3f, 0x00, 0x00, 0x00, 0x40]);
    let record = store.embedding(2).unwrap();
    assert_eq!(record.vector(), &[0x00, 0x00, 0x00, 0xbf, 0x00, 0x00, 0x00, 0x00]);
}

#[test]
fn an_unknown_identifier_is_not_found() {
    let mut store = VectorStore::new(1, euclidean);
    store.insert("only", &bits(&[1.0])).unwrap();
    assert_eq!(store.item(0).err(), Some(StoreError::NotFound));
    assert_eq!(store.item(2).err(), Some(StoreError::NotFound));
    assert_eq!(store.item(-1).err(), Some(StoreError::NotFound));
    assert_eq!(store.item(i64::MAX).err(), Some(StoreError::NotFound));
    assert_eq!(store.embedding(0).err(), Some(StoreError::NotFound));
    assert_eq!(store.embedding(2).err(), Some(StoreError::NotFound));
    assert!(store.item(1).is_ok());
}

#[test]
fn rank_orders_given_distances() {
    let mut store = VectorStore::new(1, euclidean);
    for name in ["a", "b", "c", "d"] {
        store.insert(name, &bits(&[0.0])).unwrap();
    }
    let results = store.rank(&[30, 10, 20, 10], 3);
    assert_eq!(
        results,
        vec![
            QueryResult { item_id: 2, distance: 10, content: "b".to_string() },
            QueryResult { item_id: 4, distance: 10, content: "d".to_string() },
            QueryResult { item_id: 3, distance: 20, content: "c".to_string() },
        ]
    );
}

#[test]
fn the_query_vector_is_packed_like_the_stored_ones() {
    let mut store = VectorStore::new(2, same);
    store.insert("x", &bits(&[1.5, -2.0])).unwrap();
    store.insert("y", &bits(&[1.5, 2.0])).unwrap();
    let results = store.query(&bits(&[1.5, 2.0]), 2).unwrap();
    assert_eq!(
        results,
        vec![
            QueryResult { item_id: 2, distance: 0, content: "y".to_string() },
            QueryResult { item_id: 1, distance: 1, content: "x".to_string() },
        ]
    );
}
