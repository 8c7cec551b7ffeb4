use asset_storage::assets_store::AssetsStore;
use asset_storage::principal::Principal;
use asset_storage::types::api_error::ApiError;
use asset_storage::types::asset::{Asset, AssetType, EditAsset, MoveAsset, PostAsset};

fn user(n: u8) -> Principal {
    Principal::try_from_slice(&[n, 1]).unwrap()
}

fn post(name: &str, asset_type: AssetType, parent_id: Option<u32>) -> PostAsset {
    PostAsset {
        parent_id,
        asset_type,
        name: name.to_string(),
        size: 10,
        extension: "txt".to_string(),
        mime_type: "text/plain".to_string(),
        chunks: vec![4, 5],
    }
}

fn not_found() -> ApiError {
    ApiError::NotFound("ASSET_NOT_FOUND".to_string())
}

fn ids(list: &Vec<Asset>) -> Vec<u32> {
    list.iter().map(|a| a.id).collect()
}

#[test]
fn a_new_store_is_empty() {
    assert!(AssetsStore::default().get_all_assets().is_empty());
    assert_eq!(AssetsStore::default().asset_id(), 0);
    let store = AssetsStore::new();
    assert_eq!(store.asset_id(), 0);
    assert!(store.get_all_assets().is_empty());
    assert!(store.get_user_assets(user(1)).is_empty());
}

#[test]
fn add_builds_the_node_from_the_post() {
    let mut store = AssetsStore::new();
    let asset = store.add_asset(user(1), post("a.txt", AssetType::File, Some(9)), 77);
    let expected = Asset {
        id: 1,
        user_id: user(1),
        parent_id: Some(9),
        asset_type: AssetType::File,
        name: "a.txt".to_string(),
        is_favorite: false,
        size: 10,
        extension: "txt".to_string(),
        mime_type: "text/plain".to_string(),
        chunks: vec![4, 5],
        created_at: 77,
        updated_at: 77,
    };
    assert_eq!(asset, expected);
    assert_eq!(store.asset_id(), 1);
    assert_eq!(store.get_user_assets(user(1)), vec![expected.clone()]);
    assert_eq!(store.get_all_assets(), vec![expected]);
}

#[test]
fn ids_are_given_out_across_owners() {
    let mut store = AssetsStore::new();
    assert_eq!(store.add_asset(user(1), post("a", AssetType::File, None), 1).id, 1);
    assert_eq!(store.add_asset(user(2), post("b", AssetType::File, None), 2).id, 2);
    assert_eq!(store.add_asset(user(1), post("c", AssetType::File, None), 3).id, 3);
    assert_eq!(ids(&store.get_user_assets(user(1))), vec![1, 3]);
    assert_eq!(ids(&store.get_user_assets(user(2))), vec![2]);
    assert_eq!(ids(&store.get_all_assets()), vec![1, 3, 2]);
    assert!(store.get_user_assets(user(3)).is_empty());
}

#[test]
fn add_does_not_check_the_parent() {
    let mut store = AssetsStore::new();
    let asset = store.add_asset(user(1), post("lost", AssetType::File, Some(40)), 1);
    assert_eq!(asset.parent_id, Some(40));
    assert_eq!(store.get_user_assets(user(1))[0].parent_id, Some(40));
}

#[test]
fn deleting_a_folder_takes_its_file_along() {
    let mut store = AssetsStore::new();
    let root = store.add_asset(user(1), post("root", AssetType::Folder, None), 1);
    assert_eq!(root.id, 1);
    let file = store.add_asset(user(1), post("a.txt", AssetType::File, Some(1)), 2);
    assert_eq!(file.id, 2);
    let mut removed = store.delete_assets(user(1), vec![1]).unwrap();
    removed.sort();
    assert_eq!(removed, vec![1, 2]);
    assert!(store.get_user_assets(user(1)).is_empty());
    assert!(store.get_all_assets().is_empty());
    assert_eq!(store.asset_id(), 2);
}

#[test]
fn edit_sets_the_extension_of_a_file_and_clears_that_of_a_folder() {
    let mut store = AssetsStore::new();
    store.add_asset(user(1), post("one", AssetType::File, None), 1);
    store.add_asset(user(1), post("two", AssetType::File, None), 1);
    let patch = EditAsset {
        id: 1,
        parent_id: None,
        name: None,
        extension: Some("png".to_string()),
        is_favorite: None,
    };
    let edited = store.edit_asset(user(1), patch, 9).unwrap();
    assert_eq!(edited.extension, "png");
    assert_eq!(store.get_user_assets(user(1))[0].extension, "png");
    assert_eq!(store.get_user_assets(user(1))[1].extension, "txt");

    let folder = store.add_asset(user(1), post("dir", AssetType::Folder, None), 2);
    assert_eq!(folder.extension, "txt");
    let patch = EditAsset {
        id: folder.id,
        parent_id: None,
        name: None,
        extension: Some("png".to_string()),
        is_favorite: None,
    };
    let edited = store.edit_asset(user(1), patch, 10).unwrap();
    assert_eq!(edited.extension, "");
    assert_eq!(store.get_user_assets(user(1))[2].extension, "");
}

#[test]
fn edit_applies_the_fields_that_are_present() {
    let mut store = AssetsStore::new();
    store.add_asset(user(1), post("dir", AssetType::Folder, None), 1);
    let before = store.add_asset(user(1), post("a", AssetType::File, Some(1)), 5);
    let patch = EditAsset {
        id: 2,
        parent_id: None,
        name: Some("b".to_string()),
        extension: None,
        is_favorite: Some(true),
    };
    let edited = store.edit_asset(user(1), patch, 8).unwrap();
    let expected = Asset {
        name: "b".to_string(),
        is_favorite: true,
        updated_at: 8,
        ..before.clone()
    };
    assert_eq!(edited, expected);
    assert_eq!(store.get_user_assets(user(1))[1], expected);

    let patch = EditAsset { id: 2, parent_id: Some(7), name: None, extension: None, is_favorite: None };
    let edited = store.edit_asset(user(1), patch, 9).unwrap();
    assert_eq!(edited, Asset { parent_id: Some(7), updated_at: 9, ..expected });
    assert_eq!(edited.created_at, 5);
}

#[test]
fn edit_of_a_missing_or_foreign_node_is_not_found() {
    let mut store = AssetsStore::new();
    store.add_asset(user(1), post("a", AssetType::File, None), 1);
    let patch = |id| EditAsset {
        id,
        parent_id: None,
        name: Some("x".to_string()),
        extension: None,
        is_favorite: None,
    };
    assert_eq!(store.edit_asset(user(1), patch(2), 2), Err(not_found()));
    assert_eq!(store.edit_asset(user(2), patch(1), 2), Err(not_found()));
    assert_eq!(store.get_user_assets(user(1))[0].name, "a");
    assert_eq!(store.get_user_assets(user(1))[0].updated_at, 1);
}

#[test]
fn move_sets_parent_and_time() {
    let mut store = AssetsStore::new();
    store.add_asset(user(1), post("dir", AssetType::Folder, None), 1);
    let a = store.add_asset(user(1), post("a", AssetType::File, None), 2);
    let b = store.add_asset(user(1), post("b", AssetType::File, Some(1)), 3);
    let moves = vec![
        MoveAsset { id: 2, parent_id: Some(1) },
        MoveAsset { id: 3, parent_id: None },
    ];
    let moved = store.move_assets(user(1), moves, 10).unwrap();
    assert_eq!(
        moved,
        vec![
            Asset { parent_id: Some(1), updated_at: 10, ..a },
            Asset { parent_id: None, updated_at: 10, ..b },
        ]
    );
    let now = store.get_user_assets(user(1));
    assert_eq!(now[1], moved[0]);
    assert_eq!(now[2], moved[1]);
    assert_eq!(now[0].updated_at, 1);
    assert!(now[1].updated_at > 2);
}

#[test]
fn move_of_one_node_twice_keeps_the_last_parent() {
    let mut store = AssetsStore::new();
    store.add_asset(user(1), post("a", AssetType::File, None), 1);
    let moves = vec![
        MoveAsset { id: 1, parent_id: Some(5) },
        MoveAsset { id: 1, parent_id: Some(6) },
    ];
    let moved = store.move_assets(user(1), moves, 4).unwrap();
    assert_eq!(moved[0].parent_id, Some(5));
    assert_eq!(moved[1].parent_id, Some(6));
    assert_eq!(store.get_user_assets(user(1))[0].parent_id, Some(6));
}

#[test]
fn move_with_a_foreign_node_changes_nothing() {
    let mut store = AssetsStore::new();
    store.add_asset(user(1), post("a", AssetType::File, None), 1);
    store.add_asset(user(2), post("b", AssetType::File, None), 1);
    let moves = vec![
        MoveAsset { id: 1, parent_id: Some(5) },
        MoveAsset { id: 2, parent_id: Some(5) },
    ];
    assert_eq!(store.move_assets(user(1), moves, 4), Err(not_found()));
    assert_eq!(store.get_user_assets(user(1))[0].parent_id, None);
    assert_eq!(store.get_user_assets(user(1))[0].updated_at, 1);
    assert_eq!(store.move_assets(user(1), Vec::new(), 4), Ok(Vec::new()));
}

#[test]
fn delete_cascades_through_folders_only() {
    let mut store = AssetsStore::new();
    store.add_asset(user(1), post("root", AssetType::Folder, None), 1);
    store.add_asset(user(1), post("sub", AssetType::Folder, Some(1)), 1);
    store.add_asset(user(1), post("deep", AssetType::File, Some(2)), 1);
    store.add_asset(user(1), post("under a file", AssetType::File, Some(3)), 1);
    store.add_asset(user(1), post("other", AssetType::File, None), 1);
    store.add_asset(user(2), post("foreign", AssetType::File, Some(1)), 1);
    let removed = store.delete_assets(user(1), vec![1]).unwrap();
    assert_eq!(removed, vec![1, 2, 3]);
    assert_eq!(ids(&store.get_user_assets(user(1))), vec![4, 5]);
    assert_eq!(ids(&store.get_user_assets(user(2))), vec![6]);
    assert_eq!(ids(&store.get_all_assets()), vec![4, 5, 6]);
}

#[test]
fn delete_lists_each_id_once() {
    let mut store = AssetsStore::new();
    store.add_asset(user(1), post("root", AssetType::Folder, None), 1);
    store.add_asset(user(1), post("a", AssetType::File, Some(1)), 1);
    store.add_asset(user(1), post("b", AssetType::File, None), 1);
    let removed = store.delete_assets(user(1), vec![2, 1, 2, 3]).unwrap();
    assert_eq!(removed, vec![2, 1, 3]);
    assert!(store.get_all_assets().is_empty());
    assert_eq!(store.delete_assets(user(1), Vec::new()), Ok(Vec::new()));
}

#[test]
fn delete_with_a_missing_or_foreign_id_changes_nothing() {
    let mut store = AssetsStore::new();
    store.add_asset(user(1), post("a", AssetType::File, None), 1);
    store.add_asset(user(2), post("b", AssetType::File, None), 1);
    assert_eq!(store.delete_assets(user(1), vec![1, 2]), Err(not_found()));
    assert_eq!(store.delete_assets(user(1), vec![1, 9]), Err(not_found()));
    assert_eq!(store.delete_assets(user(3), vec![1]), Err(not_found()));
    assert_eq!(ids(&store.get_all_assets()), vec![1, 2]);
    assert_eq!(store.delete_assets(user(1), vec![1]), Ok(vec![1]));
    assert_eq!(store.delete_assets(user(1), vec![1]), Err(not_found()));
}

#[test]
fn add_does_not_close_a_cycle() {
    let mut store = AssetsStore::new();
    let a = store.add_asset(user(1), post("a", AssetType::Folder, Some(2)), 1);
    assert_eq!(a.parent_id, Some(2));
    let b = store.add_asset(user(1), post("b", AssetType::Folder, Some(1)), 1);
    assert_eq!(b.id, 2);
    assert_eq!(b.parent_id, None);
    let c = store.add_asset(user(1), post("c", AssetType::File, Some(2)), 1);
    assert_eq!(c.parent_id, Some(2));
    assert_eq!(store.get_user_assets(user(1))[1].parent_id, None);
    let mut removed = store.delete_assets(user(1), vec![2]).unwrap();
    removed.sort();
    assert_eq!(removed, vec![1, 2, 3]);
    assert!(store.get_all_assets().is_empty());
}

#[test]
fn add_under_its_own_id_lands_at_the_root() {
    let mut store = AssetsStore::new();
    let a = store.add_asset(user(1), post("a", AssetType::Folder, Some(1)), 1);
    assert_eq!(a.id, 1);
    assert_eq!(a.parent_id, None);
    let b = store.add_asset(user(1), post("b", AssetType::Folder, Some(3)), 1);
    assert_eq!(b.parent_id, Some(3));
    let c = store.add_asset(user(1), post("c", AssetType::Folder, Some(2)), 1);
    assert_eq!(c.id, 3);
    assert_eq!(c.parent_id, None);
}

#[test]
fn move_under_itself_is_passed_over() {
    let mut store = AssetsStore::new();
    let d = store.add_asset(user(1), post("d", AssetType::Folder, None), 1);
    let moved = store.move_assets(user(1), vec![MoveAsset { id: 1, parent_id: Some(1) }], 9).unwrap();
    assert_eq!(moved, vec![d.clone()]);
    assert_eq!(store.get_user_assets(user(1)), vec![d]);
    assert_eq!(store.delete_assets(user(1), vec![1]), Ok(vec![1]));
}

#[test]
fn move_under_a_descendant_is_passed_over() {
    let mut store = AssetsStore::new();
    store.add_asset(user(1), post("top", AssetType::Folder, None), 1);
    store.add_asset(user(1), post("mid", AssetType::Folder, Some(1)), 1);
    let low = store.add_asset(user(1), post("low", AssetType::File, Some(2)), 1);
    let moves = vec![
        MoveAsset { id: 1, parent_id: Some(3) },
        MoveAsset { id: 3, parent_id: None },
        MoveAsset { id: 1, parent_id: Some(3) },
        MoveAsset { id: 3, parent_id: Some(2) },
        MoveAsset { id: 2, parent_id: Some(7) },
    ];
    let moved = store.move_assets(user(1), moves, 9).unwrap();
    assert_eq!(moved[0].parent_id, None);
    assert_eq!(moved[0].updated_at, 1);
    assert_eq!(moved[1], Asset { parent_id: None, updated_at: 9, ..low });
    assert_eq!(moved[2].parent_id, Some(3));
    assert_eq!(moved[2].updated_at, 9);
    assert_eq!(moved[3].parent_id, None);
    assert_eq!(moved[4].parent_id, Some(7));
    let now = store.get_user_assets(user(1));
    assert_eq!(now[0].parent_id, Some(3));
    assert_eq!(now[1].parent_id, Some(7));
    assert_eq!(now[2].parent_id, None);
}

#[test]
fn edit_does_not_hang_a_node_below_itself() {
    let mut store = AssetsStore::new();
    store.add_asset(user(1), post("top", AssetType::Folder, None), 1);
    store.add_asset(user(1), post("mid", AssetType::Folder, Some(1)), 1);
    let patch = |id, parent| EditAsset {
        id,
        parent_id: Some(parent),
        name: Some("renamed".to_string()),
        extension: None,
        is_favorite: None,
    };
    let own = store.edit_asset(user(1), patch(2, 2), 5).unwrap();
    assert_eq!(own.parent_id, Some(1));
    assert_eq!(own.name, "renamed");
    assert_eq!(own.updated_at, 5);
    let below = store.edit_asset(user(1), patch(1, 2), 6).unwrap();
    assert_eq!(below.parent_id, None);
    assert_eq!(below.name, "renamed");
    let free = store.edit_asset(user(1), patch(2, 9), 7).unwrap();
    assert_eq!(free.parent_id, Some(9));
    let then = store.edit_asset(user(1), patch(1, 2), 8).unwrap();
    assert_eq!(then.parent_id, Some(2));
}

#[test]
fn ids_are_not_given_out_again_after_a_delete() {
    let mut store = AssetsStore::new();
    store.add_asset(user(1), post("a", AssetType::File, None), 1);
    store.delete_assets(user(1), vec![1]).unwrap();
    assert_eq!(store.add_asset(user(1), post("b", AssetType::File, None), 1).id, 2);
    assert_eq!(ids(&store.get_user_assets(user(1))), vec![2]);
}

#[test]
fn flat_delete_leaves_descendants_in_place() {
    let mut store = AssetsStore::new();
    store.add_asset(user(1), post("root", AssetType::Folder, None), 1);
    store.add_asset(user(1), post("a", AssetType::File, Some(1)), 1);
    store.add_asset(user(2), post("b", AssetType::File, None), 1);
    assert_eq!(store.delete_assets_flat(user(1), vec![1, 3]), Err(not_found()));
    assert_eq!(ids(&store.get_all_assets()), vec![1, 2, 3]);
    assert_eq!(store.delete_assets_flat(user(1), vec![1, 1]), Ok(vec![1, 1]));
    assert_eq!(ids(&store.get_user_assets(user(1))), vec![2]);
    assert_eq!(store.get_user_assets(user(1))[0].parent_id, Some(1));
    assert_eq!(ids(&store.get_user_assets(user(2))), vec![3]);
}
