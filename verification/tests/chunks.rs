use asset_storage::chunks_store::ChunksStore;
use asset_storage::principal::Principal;
use asset_storage::types::api_error::ApiError;
use asset_storage::types::chunk::{Chunk, PostChunk};

fn user(n: u8) -> Principal {
    Principal::try_from_slice(&[n, 2]).unwrap()
}

fn unit() -> Principal {
    Principal::try_from_slice(&[9, 9, 9]).unwrap()
}

fn not_found() -> ApiError {
    ApiError::NotFound("CHUNKS_NOT_FOUND".to_string())
}

#[test]
fn a_default_chunk_store_is_empty() {
    let store = ChunksStore::default();
    assert_eq!(store.chunk_id(), 0);
    assert_eq!(store.canister_owner().as_slice(), &[4]);
    assert!(store.get_all_chunks().is_empty());
}

#[test]
fn init_sets_the_owner_when_one_is_named() {
    let mut store = ChunksStore::default();
    store.init(None);
    assert_eq!(store.canister_owner().as_slice(), &[4]);
    store.init(Some(user(1)));
    assert_eq!(store.canister_owner(), &user(1));
    store.init(None);
    assert_eq!(store.canister_owner(), &user(1));
}

#[test]
fn chunk_of_another_owner_is_not_found() {
    let mut store = ChunksStore::default();
    let chunk =
        store.add_chunk(user(1), PostChunk { blob: vec![1, 2, 3], index: 0 }, unit()).unwrap();
    assert_eq!(chunk.id, 1);
    assert_eq!(store.get_chunks_by_chunk_id(1, user(2)), Err(not_found()));
    assert_eq!(store.get_chunks_by_chunk_id(1, user(1)), Ok(vec![1, 2, 3]));
}

#[test]
fn add_chunk_hands_back_the_handle() {
    let mut store = ChunksStore::default();
    let first = store.add_chunk(user(1), PostChunk { blob: vec![7], index: 5 }, unit());
    assert_eq!(first, Ok(Chunk { id: 1, index: 5, canister: unit() }));
    let second = store.add_chunk(user(2), PostChunk { blob: vec![], index: 5 }, unit());
    assert_eq!(second, Ok(Chunk { id: 2, index: 5, canister: unit() }));
    assert_eq!(store.chunk_id(), 2);
    assert_eq!(store.get_chunks_by_chunk_id(2, user(2)), Ok(vec![]));
    assert_eq!(store.get_chunks_by_chunk_id(3, user(2)), Err(not_found()));
    assert_eq!(store.get_chunks_by_chunk_id(0, user(1)), Err(not_found()));
}

#[test]
fn get_all_chunks_lists_every_chunk_once() {
    let mut store = ChunksStore::default();
    store.add_chunk(user(1), PostChunk { blob: vec![1], index: 0 }, unit()).unwrap();
    store.add_chunk(user(2), PostChunk { blob: vec![2, 2], index: 0 }, unit()).unwrap();
    store.add_chunk(user(1), PostChunk { blob: vec![3], index: 1 }, unit()).unwrap();
    let mut all = store.get_all_chunks();
    all.sort_by_key(|entry| entry.0);
    assert_eq!(
        all,
        vec![(1, user(1), vec![1]), (2, user(2), vec![2, 2]), (3, user(1), vec![3])]
    );
}

#[test]
fn delete_chunks_passes_over_what_is_not_there() {
    let mut store = ChunksStore::default();
    store.add_chunk(user(1), PostChunk { blob: vec![1], index: 0 }, unit()).unwrap();
    store.add_chunk(user(2), PostChunk { blob: vec![2], index: 0 }, unit()).unwrap();
    store.add_chunk(user(1), PostChunk { blob: vec![3], index: 1 }, unit()).unwrap();
    assert_eq!(store.delete_chunks(user(1), vec![3, 2, 8, 1, 3]), Ok(vec![3, 1]));
    assert_eq!(store.get_chunks_by_chunk_id(1, user(1)), Err(not_found()));
    assert_eq!(store.get_chunks_by_chunk_id(3, user(1)), Err(not_found()));
    assert_eq!(store.get_chunks_by_chunk_id(2, user(2)), Ok(vec![2]));
    assert_eq!(store.get_all_chunks().len(), 1);
    assert_eq!(store.chunk_id(), 3);
}

#[test]
fn delete_chunks_twice_reports_nothing_the_second_time() {
    let mut store = ChunksStore::default();
    store.add_chunk(user(1), PostChunk { blob: vec![1], index: 0 }, unit()).unwrap();
    store.add_chunk(user(1), PostChunk { blob: vec![2], index: 1 }, unit()).unwrap();
    assert_eq!(store.delete_chunks(user(1), vec![1, 2]), Ok(vec![1, 2]));
    assert_eq!(store.delete_chunks(user(1), vec![1, 2]), Ok(vec![]));
    assert_eq!(store.delete_chunks(user(1), vec![]), Ok(vec![]));
    let next = store.add_chunk(user(1), PostChunk { blob: vec![3], index: 0 }, unit()).unwrap();
    assert_eq!(next.id, 3);
}

#[test]
fn get_state_lists_the_keys() {
    let mut store = ChunksStore::default();
    store.add_chunk(user(1), PostChunk { blob: vec![1], index: 0 }, unit()).unwrap();
    store.add_chunk(user(2), PostChunk { blob: vec![2], index: 0 }, unit()).unwrap();
    let mut state = store.get_state();
    state.chunks.sort_by_key(|key| key.0);
    assert_eq!(state.canister_owner.as_slice(), &[4]);
    assert_eq!(state.chunk_id, 2);
    assert_eq!(state.chunks, vec![(1, user(1)), (2, user(2))]);
}
