use face_auth_core::storage::{
    join, user_store_dir, EmbeddingStore, StoreError, EMBEDDING_DIM, EMBEDDING_VERSION,
    MAX_EMBEDDINGS,
};

fn sample(seed: f32) -> Vec<f32> {
    (0..EMBEDDING_DIM).map(|i| seed + i as f32 * 1e-3).collect()
}

fn bits(v: &[f32]) -> Vec<u32> {
    v.iter().map(|x| x.to_bits()).collect()
}

fn floats(v: &[u32]) -> Vec<f32> {
    v.iter().map(|&x| f32::from_bits(x)).collect()
}

fn header(version: u32, count: u32, dim: u32) -> Vec<u8> {
    let mut buf = Vec::new();
    buf.extend_from_slice(&version.to_le_bytes());
    buf.extend_from_slice(&count.to_le_bytes());
    buf.extend_from_slice(&dim.to_le_bytes());
    buf
}

#[test]
fn round_trips() {
    let mut store = EmbeddingStore::default();
    store.add_embedding(bits(&sample(0.1)));
    store.add_embedding(bits(&sample(0.2)));
    let bytes = store.encode().unwrap();

    let loaded = EmbeddingStore::decode(&bytes).unwrap();
    assert_eq!(loaded.embeddings.len(), 2);
    assert_eq!(floats(&loaded.embeddings[1]), sample(0.2));
}

#[test]
fn encoding_layout_is_little_endian() {
    let mut store = EmbeddingStore::new();
    store.add_embedding(bits(&sample(0.5)));
    let bytes = store.encode().unwrap();
    assert_eq!(bytes.len(), 12 + 4 * EMBEDDING_DIM as usize);
    assert_eq!(&bytes[..12], &header(EMBEDDING_VERSION, 1, EMBEDDING_DIM)[..]);
    assert_eq!(&bytes[12..16], &0.5f32.to_le_bytes());
}

#[test]
fn rejects_path_traversal_in_username() {
    assert!(user_store_dir("../escaped", "/tmp/store").is_err());
    assert!(user_store_dir("../../etc/shadow", "/tmp/store").is_err());
    assert_eq!(user_store_dir("alice", "/tmp/store").unwrap(), "/tmp/store/alice");
    assert_eq!(user_store_dir("alice", "/tmp/store/").unwrap(), "/tmp/store/alice");
}

#[test]
fn join_adds_one_separator() {
    assert_eq!(join("/var/lib/face-auth", "bob"), "/var/lib/face-auth/bob");
    assert_eq!(join("", "bob"), "bob");
}

#[test]
fn rejects_absurd_embedding_count() {
    let buf = header(EMBEDDING_VERSION, u32::MAX, EMBEDDING_DIM);
    assert_eq!(EmbeddingStore::decode(&buf).err(), Some(StoreError::InvalidFormat));
}

#[test]
fn rejects_non_finite_values() {
    let mut buf = header(EMBEDDING_VERSION, 1, EMBEDDING_DIM);
    for _ in 0..EMBEDDING_DIM {
        buf.extend_from_slice(&f32::NAN.to_le_bytes());
    }
    assert_eq!(EmbeddingStore::decode(&buf).err(), Some(StoreError::InvalidFormat));
}

#[test]
fn rejects_infinity_in_the_last_value() {
    let mut values = sample(0.1);
    values[511] = f32::INFINITY;
    let mut store = EmbeddingStore::new();
    store.add_embedding(bits(&values));
    // Writing does not look at the values; reading refuses them.
    let bytes = store.encode().unwrap();
    assert_eq!(EmbeddingStore::decode(&bytes).err(), Some(StoreError::InvalidFormat));
}

#[test]
fn rejects_trailing_bytes() {
    let mut store = EmbeddingStore::default();
    store.add_embedding(bits(&sample(0.1)));
    let mut data = store.encode().unwrap();
    data.extend_from_slice(b"extra");
    assert_eq!(EmbeddingStore::decode(&data).err(), Some(StoreError::InvalidFormat));
}

#[test]
fn truncated_files_are_reported_as_such() {
    assert_eq!(EmbeddingStore::decode(&[1, 0]).err(), Some(StoreError::Truncated));
    assert_eq!(EmbeddingStore::decode(&[2, 0, 0, 0]).err(), Some(StoreError::InvalidFormat));
    assert_eq!(EmbeddingStore::decode(&[1, 0, 0, 0, 1]).err(), Some(StoreError::Truncated));
    let mut buf = header(EMBEDDING_VERSION, 2, EMBEDDING_DIM);
    buf.extend_from_slice(&vec![0u8; 4 * EMBEDDING_DIM as usize]);
    assert_eq!(EmbeddingStore::decode(&buf).err(), Some(StoreError::Truncated));
    assert_eq!(
        EmbeddingStore::decode(&header(EMBEDDING_VERSION, 0, 128)).err(),
        Some(StoreError::InvalidFormat)
    );
}

#[test]
fn empty_store_round_trips() {
    let bytes = EmbeddingStore::new().encode().unwrap();
    assert_eq!(bytes, header(EMBEDDING_VERSION, 0, EMBEDDING_DIM));
    assert!(EmbeddingStore::decode(&bytes).unwrap().embeddings.is_empty());
}

#[test]
fn encode_refuses_too_many_or_misshapen_embeddings() {
    let mut store = EmbeddingStore::new();
    for _ in 0..=MAX_EMBEDDINGS {
        store.add_embedding(vec![0; EMBEDDING_DIM as usize]);
    }
    assert_eq!(store.encode().err(), Some(StoreError::TooManyEmbeddings { count: 257 }));

    let mut store = EmbeddingStore::new();
    store.add_embedding(vec![0; EMBEDDING_DIM as usize]);
    store.add_embedding(vec![0; 3]);
    store.add_embedding(vec![0; 4]);
    assert_eq!(store.encode().err(), Some(StoreError::WrongDimension { len: 3 }));
}
