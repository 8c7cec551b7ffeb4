use vstd::prelude::*;
use crate::assets_model::{
    created, edited, index_with, index_without, moves_applied, stood_after, AssetsStoreView,
};
use crate::assets_store::AssetsStore;
use crate::principal::{anonymous_bytes, Principal};
use crate::types::api_error::{asset_not_found, unauthorized, ApiError};
use crate::types::asset::{assets_view, Asset, EditAsset, MoveAsset, PostAsset};
use crate::types::user::principals_view;
use crate::utils::{validate_admin, validate_anonymous};

verus! {

/// For administrators: all nodes of all owners.
pub fn get_assets(store: &AssetsStore, caller: &Principal, whitelist: &Vec<Principal>) -> (r: Result<
    Vec<Asset>,
    ApiError,
>)
    requires
        store.wf(),
    ensures
        r is Ok <==> principals_view(whitelist@).contains(caller@),
        match r {
            Ok(list) => assets_view(list@) == store@.all_nodes(),
            Err(e) => e@ == unauthorized(),
        },
{
    match validate_admin(caller, whitelist) {
        Ok(_) => Ok(store.get_all_assets()),
        Err(err) => Err(err),
    }
}

/// The caller's own nodes, oldest first. The anonymous caller is turned
/// away.
pub fn get_user_assets(store: &AssetsStore, caller: &Principal) -> (r: Result<Vec<Asset>, ApiError>)
    requires
        store.wf(),
    ensures
        r is Ok <==> caller@ != anonymous_bytes(),
        match r {
            Ok(list) => assets_view(list@) == store@.nodes_of(caller@),
            Err(e) => e@ == unauthorized(),
        },
{
    match validate_anonymous(caller) {
        Ok(principal) => Ok(store.get_user_assets(principal)),
        Err(err) => Err(err),
    }
}

/// Creates a node for the caller at time `now`. The anonymous caller is
/// turned away and the store stays as it is.
pub fn add_asset(store: &mut AssetsStore, caller: &Principal, asset: PostAsset, now: u64) -> (r: Result<
    Asset,
    ApiError,
>)
    requires
        old(store).wf(),
        old(store)@.asset_id < u32::MAX,
    ensures
        final(store).wf(),
        r is Ok <==> caller@ != anonymous_bytes(),
        match r {
            Ok(added) => {
                &&& added@ == created(
                    old(store)@.assets,
                    (old(store)@.asset_id + 1) as u32,
                    caller@,
                    asset,
                    now,
                )
                &&& final(store)@ == (AssetsStoreView {
                    asset_id: (old(store)@.asset_id + 1) as u32,
                    assets: old(store)@.assets.insert(added.id, added@),
                    user_assets: index_with(old(store)@.user_assets, caller@, added.id),
                })
            },
            Err(e) => e@ == unauthorized() && final(store)@ == old(store)@,
        },
{
    match validate_anonymous(caller) {
        Ok(principal) => Ok(store.add_asset(principal, asset, now)),
        Err(err) => Err(err),
    }
}

/// Applies a patch to one of the caller's nodes at time `now`. The
/// anonymous caller is turned away; a node that is not the caller's is not
/// found. The store stays as it is in both cases.
pub fn edit_asset(store: &mut AssetsStore, caller: &Principal, asset: EditAsset, now: u64) -> (r: Result<
    Asset,
    ApiError,
>)
    requires
        old(store).wf(),
    ensures
        final(store).wf(),
        r is Ok <==> caller@ != anonymous_bytes() && old(store)@.owns(caller@, asset.id),
        match r {
            Ok(changed) => {
                &&& changed@ == edited(old(store)@.assets, old(store)@.assets[asset.id], asset, now)
                &&& final(store)@ == (AssetsStoreView {
                    assets: old(store)@.assets.insert(asset.id, changed@),
                    ..old(store)@
                })
            },
            Err(e) => {
                &&& final(store)@ == old(store)@
                &&& e@ == if caller@ == anonymous_bytes() {
                    unauthorized()
                } else {
                    asset_not_found()
                }
            },
        },
{
    match validate_anonymous(caller) {
        Ok(principal) => store.edit_asset(principal, asset, now),
        Err(err) => Err(err),
    }
}

/// Carries out a batch of moves on the caller's nodes at time `now`. The
/// anonymous caller is turned away; a batch that names a node that is not
/// the caller's is not found. The store stays as it is in both cases. A
/// move that would make a node its own ancestor is passed over.
pub fn move_assets(store: &mut AssetsStore, caller: &Principal, assets: Vec<MoveAsset>, now: u64) -> (r:
    Result<Vec<Asset>, ApiError>)
    requires
        old(store).wf(),
    ensures
        final(store).wf(),
        r is Ok <==> caller@ != anonymous_bytes() && forall|k: int|
            0 <= k < assets@.len() ==> old(store)@.owns(caller@, (#[trigger] assets@[k]).id),
        match r {
            Ok(list) => {
                &&& list@.len() == assets@.len()
                &&& forall|k: int|
                    0 <= k < list@.len() ==> (#[trigger] list@[k])@ == stood_after(
                        old(store)@.assets,
                        assets@,
                        now,
                        k,
                    )
                &&& forall|k: int|
                    #![trigger list@[k]]
                    #![trigger final(store)@.assets[assets@[k].id]]
                    0 <= k < list@.len() && (forall|l: int|
                        k < l < assets@.len() ==> (#[trigger] assets@[l]).id != assets@[k].id)
                        ==> final(store)@.assets[assets@[k].id] == list@[k]@
                &&& final(store)@ == (AssetsStoreView {
                    assets: moves_applied(old(store)@.assets, assets@, now),
                    ..old(store)@
                })
            },
            Err(e) => {
                &&& final(store)@ == old(store)@
                &&& e@ == if caller@ == anonymous_bytes() {
                    unauthorized()
                } else {
                    asset_not_found()
                }
            },
        },
{
    match validate_anonymous(caller) {
        Ok(principal) => store.move_assets(principal, assets, now),
        Err(err) => Err(err),
    }
}

/// Deletes the named nodes of the caller with all their descendants. The
/// anonymous caller is turned away; a list that names a node that is not
/// the caller's is not found. The store stays as it is in both cases.
pub fn delete_assets(store: &mut AssetsStore, caller: &Principal, asset_ids: Vec<u32>) -> (r: Result<
    Vec<u32>,
    ApiError,
>)
    requires
        old(store).wf(),
    ensures
        final(store).wf(),
        r is Ok <==> caller@ != anonymous_bytes() && forall|k: int|
            0 <= k < asset_ids@.len() ==> old(store)@.owns(caller@, #[trigger] asset_ids@[k]),
        match r {
            Ok(removed) => {
                &&& removed@.no_duplicates()
                &&& removed@.to_set() == old(store)@.doomed(caller@, asset_ids@)
                &&& final(store)@ == (AssetsStoreView {
                    asset_id: old(store)@.asset_id,
                    assets: old(store)@.assets.remove_keys(removed@.to_set()),
                    user_assets: index_without(old(store)@.user_assets, caller@, removed@.to_set()),
                })
            },
            Err(e) => {
                &&& final(store)@ == old(store)@
                &&& e@ == if caller@ == anonymous_bytes() {
                    unauthorized()
                } else {
                    asset_not_found()
                }
            },
        },
{
    match validate_anonymous(caller) {
        Ok(principal) => store.delete_assets(principal, asset_ids),
        Err(err) => Err(err),
    }
}

} // verus!
