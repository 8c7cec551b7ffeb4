use asset_storage::assets_controller;
use asset_storage::assets_store::AssetsStore;
use asset_storage::chunks_controller;
use asset_storage::chunks_store::ChunksStore;
use asset_storage::principal::Principal;
use asset_storage::types::api_error::ApiError;
use asset_storage::types::asset::{AssetType, EditAsset, MoveAsset, PostAsset};
use asset_storage::types::chunk::{ChunkStoreState, PostChunk};
use asset_storage::users_controller;
use asset_storage::users_store::UsersStore;

fn user(n: u8) -> Principal {
    Principal::try_from_slice(&[n, 5]).unwrap()
}

fn anon() -> Principal {
    Principal::anonymous()
}

fn unauthorized<T>() -> Result<T, ApiError> {
    Err(ApiError::Unauthorized("UNAUTHORIZED".to_string()))
}

fn post(name: &str) -> PostAsset {
    PostAsset {
        parent_id: None,
        asset_type: AssetType::File,
        name: name.to_string(),
        size: 3,
        extension: "bin".to_string(),
        mime_type: "m".to_string(),
        chunks: vec![],
    }
}

#[test]
fn anonymous_callers_reach_no_asset_operation() {
    let mut store = AssetsStore::new();
    assets_controller::add_asset(&mut store, &user(1), post("a"), 1).unwrap();
    let before = store.snapshot();
    assert_eq!(assets_controller::get_user_assets(&store, &anon()), unauthorized());
    assert_eq!(assets_controller::add_asset(&mut store, &anon(), post("b"), 2), unauthorized());
    let patch =
        EditAsset { id: 1, parent_id: None, name: Some("x".to_string()), extension: None, is_favorite: None };
    assert_eq!(assets_controller::edit_asset(&mut store, &anon(), patch, 2), unauthorized());
    let moves = vec![MoveAsset { id: 1, parent_id: Some(3) }];
    assert_eq!(assets_controller::move_assets(&mut store, &anon(), moves, 2), unauthorized());
    assert_eq!(assets_controller::delete_assets(&mut store, &anon(), vec![1]), unauthorized());
    assert_eq!(store.snapshot(), before);
}

#[test]
fn callers_reach_their_own_assets() {
    let mut store = AssetsStore::new();
    let a = assets_controller::add_asset(&mut store, &user(1), post("a"), 1).unwrap();
    assert_eq!(a.id, 1);
    assert_eq!(a.user_id, user(1));
    assert_eq!(assets_controller::get_user_assets(&store, &user(1)), Ok(vec![a.clone()]));
    assert_eq!(assets_controller::get_user_assets(&store, &user(2)), Ok(vec![]));
    let moves = vec![MoveAsset { id: 1, parent_id: Some(3) }];
    assert_eq!(
        assets_controller::move_assets(&mut store, &user(2), moves.clone(), 2),
        Err(ApiError::NotFound("ASSET_NOT_FOUND".to_string()))
    );
    let moved = assets_controller::move_assets(&mut store, &user(1), moves, 2).unwrap();
    assert_eq!(moved[0].parent_id, Some(3));
    let patch =
        EditAsset { id: 1, parent_id: None, name: Some("x".to_string()), extension: None, is_favorite: None };
    assert_eq!(assets_controller::edit_asset(&mut store, &user(1), patch, 3).unwrap().name, "x");
    assert_eq!(assets_controller::delete_assets(&mut store, &user(1), vec![1]), Ok(vec![1]));
}

#[test]
fn only_administrators_see_everything() {
    let mut assets = AssetsStore::new();
    assets.add_asset(user(1), post("a"), 1);
    let mut chunks = ChunksStore::default();
    chunks.add_chunk(user(1), PostChunk { blob: vec![1], index: 0 }, user(9)).unwrap();
    let mut users = UsersStore::new(vec![]);
    users.create_user(user(1), None, 1).unwrap();
    let admins = vec![user(7)];

    assert_eq!(assets_controller::get_assets(&assets, &user(1), &admins), unauthorized());
    assert_eq!(assets_controller::get_assets(&assets, &user(7), &admins), Ok(assets.get_all_assets()));
    assert_eq!(chunks_controller::get_all_chunks(&chunks, &user(1), &admins), unauthorized());
    assert_eq!(
        chunks_controller::get_all_chunks(&chunks, &user(7), &admins),
        Ok(vec![(1, user(1), vec![1])])
    );
    assert_eq!(chunks_controller::get_state(&chunks, &anon(), &admins), unauthorized());
    assert_eq!(
        chunks_controller::get_state(&chunks, &user(7), &admins),
        Ok(ChunkStoreState { canister_owner: anon(), chunk_id: 1, chunks: vec![(1, user(1))] })
    );
    assert_eq!(users_controller::get_users(&users, &user(1), &admins), unauthorized());
    assert_eq!(users_controller::get_users(&users, &user(7), &admins), Ok(users.get_all_users()));
    assert_eq!(users_controller::get_users(&users, &user(7), &vec![]), unauthorized());
}

#[test]
fn anonymous_callers_reach_no_chunk_operation() {
    let mut store = ChunksStore::default();
    let chunk = PostChunk { blob: vec![1], index: 0 };
    assert_eq!(chunks_controller::add_chunk(&mut store, &anon(), chunk, user(9)), unauthorized());
    assert_eq!(store.chunk_id(), 0);
    let chunk = PostChunk { blob: vec![1], index: 0 };
    let handle = chunks_controller::add_chunk(&mut store, &user(1), chunk, user(9)).unwrap();
    assert_eq!(handle.id, 1);
    assert_eq!(chunks_controller::get_chunks_by_chunk_id(&store, &anon(), 1), unauthorized());
    assert_eq!(chunks_controller::get_chunks_by_chunk_id(&store, &user(1), 1), Ok(vec![1]));
    assert_eq!(
        chunks_controller::get_chunks_by_chunk_id(&store, &user(2), 1),
        Err(ApiError::NotFound("CHUNKS_NOT_FOUND".to_string()))
    );
    assert_eq!(chunks_controller::delete_chunks(&mut store, &anon(), vec![1]), unauthorized());
    assert_eq!(chunks_controller::delete_chunks(&mut store, &user(2), vec![1]), Ok(vec![]));
    assert_eq!(chunks_controller::delete_chunks(&mut store, &user(1), vec![1]), Ok(vec![1]));
}

#[test]
fn anonymous_callers_cannot_register() {
    let mut store = UsersStore::new(vec![]);
    assert_eq!(users_controller::create_user(&mut store, &anon(), None, 1), unauthorized());
    assert!(store.get_all_users().is_empty());
    let made = users_controller::create_user(&mut store, &user(1), None, 1).unwrap();
    assert_eq!(made.user_id, user(1));
    assert_eq!(
        users_controller::create_user(&mut store, &user(1), None, 2),
        Err(ApiError::AlreadyExists("USER_EXISTS".to_string()))
    );
}
