use std::collections::{HashMap, HashSet};
use vstd::pervasive::unreached;
use vstd::prelude::*;
use vstd::std_specs::hash::group_hash_axioms;
use vstd::set_lib::lemma_len_subset;
use crate::assets_links::{
    acyclic, climbs, closes_cycle, hangs_below, lemma_climb_join, lemma_climb_split,
    lemma_climb_within, lemma_fewer_nodes_acyclic, lemma_own_parent_is_free, lemma_rehang_acyclic,
    parent_in,
};
use crate::assets_model::{
    created, distinct_ids, edited, entry_of, falls_with, has_entry, holds_id, index_with, index_without,
    lemma_moves_keep_rest, lemma_moves_last_wins, listed, moves_applied, nodes_by_id, not_in,
    stood_after, AssetsSnapshot, AssetsStoreView,
};
use crate::principal::Principal;
use crate::types::api_error::{asset_not_found, ApiError};
use crate::types::asset::{assets_view, Asset, AssetType, AssetView, EditAsset, MoveAsset, PostAsset};
use crate::utils::{child_at, get_nested_child_assets, lemma_push_keeps_agreement, nested_children};

verus! {

broadcast use group_hash_axioms;

/// One owner's entry of the secondary index: the ids of the owner's nodes,
/// oldest first.
struct UserAssets {
    user: Principal,
    ids: Vec<u32>,
}

/// The hierarchy store of one storage unit: the nodes of every tenant, keyed
/// by id, and for each owner the list of the owner's node ids.
pub struct AssetsStore {
    /// The id given out last.
    asset_id: u32,
    /// All nodes.
    assets: HashMap<u32, Asset>,
    /// Each owner's node ids.
    user_assets: Vec<UserAssets>,
}

/// The values of the nodes of a map, under the same ids.
spec fn map_view(nodes: Map<u32, Asset>) -> Map<u32, AssetView> {
    Map::new(|id: u32| nodes.contains_key(id), |id: u32| nodes[id]@)
}

/// `id` climbs to `top` over at least one link.
spec fn below(nodes: Map<u32, AssetView>, id: u32, top: u32) -> bool {
    exists|steps: nat| steps >= 1 && climbs(nodes, id, top, steps)
}

/// Whether `top` is `from` or stands on the parent chain of `from`. The
/// chain is followed upward until it arrives at `top` or ends.
fn reaches(assets: &HashMap<u32, Asset>, from: u32, top: u32) -> (r: bool)
    requires
        acyclic(map_view(assets@)),
    ensures
        r == hangs_below(map_view(assets@), from, top),
{
    let ghost nodes = map_view(assets@);
    let mut cur = from;
    let ghost mut k: nat = 0;
    let ghost mut visited: Set<u32> = Set::empty();
    proof {
        assert(nodes.dom() =~= assets@.dom());
    }
    loop
        invariant
            nodes == map_view(assets@),
            acyclic(nodes),
            nodes.dom().finite(),
            visited.finite(),
            visited.subset_of(nodes.dom()),
            climbs(nodes, from, cur, k),
            forall|j: nat| j < k ==> !climbs(nodes, from, top, j),
            forall|id: u32| visited.contains(id) ==> below(nodes, id, cur),
        decreases nodes.dom().len() - visited.len(),
    {
        if cur == top {
            return true;
        }
        let next = match assets.get(&cur) {
            Some(asset) => asset.parent_id,
            None => None,
        };
        assert(next == parent_in(nodes, cur));
        match next {
            None => {
                proof {
                    assert forall|s: nat| !climbs(nodes, from, top, s) by {
                        if climbs(nodes, from, top, s) && s >= k {
                            lemma_climb_split(nodes, from, top, s, cur, k);
                        }
                    }
                }
                return false;
            },
            Some(parent) => {
                proof {
                    if visited.contains(cur) {
                        let s = choose|s: nat| s >= 1 && climbs(nodes, cur, cur, s);
                        assert(climbs(nodes, cur, cur, s));
                    }
                    assert(climbs(nodes, parent, parent, 0));
                    assert(climbs(nodes, cur, parent, 1));
                    assert forall|id: u32| visited.insert(cur).contains(id) implies below(
                        nodes,
                        id,
                        parent,
                    ) by {
                        if id != cur {
                            let s = choose|s: nat| s >= 1 && climbs(nodes, id, cur, s);
                            lemma_climb_join(nodes, id, cur, parent, s, 1);
                            assert(climbs(nodes, id, parent, s + 1));
                        }
                    }
                    lemma_climb_join(nodes, from, cur, parent, k, 1);
                    if climbs(nodes, from, top, k) {
                        lemma_climb_split(nodes, from, top, k, cur, k);
                    }
                    lemma_len_subset(visited.insert(cur), nodes.dom());
                    visited = visited.insert(cur);
                    k = k + 1;
                }
                cur = parent;
            },
        }
    }
}

impl View for AssetsStore {
    type V = AssetsStoreView;

    closed spec fn view(&self) -> AssetsStoreView {
        AssetsStoreView {
            asset_id: self.asset_id,
            assets: map_view(self.assets@),
            user_assets: self.user_assets@.map_values(|e: UserAssets| (e.user@, e.ids@)),
        }
    }
}

impl Default for AssetsStore {
    /// An empty store that has given out no id yet.
    fn default() -> (store: AssetsStore)
        ensures
            store.wf(),
            store@.asset_id == 0,
            store@.assets == Map::<u32, AssetView>::empty(),
            store@.user_assets == Seq::<(Seq<u8>, Seq<u32>)>::empty(),
    {
        AssetsStore::new()
    }
}

/// `id` stands among the first `upto` members of `list`.
spec fn among(list: Seq<u32>, upto: int, id: u32) -> bool {
    exists|m: int| 0 <= m < upto && #[trigger] list[m] == id
}

/// Deleting one of the first `upto` targets takes `id` away.
spec fn fallen(nodes: Seq<AssetView>, targets: Seq<u32>, upto: int, id: u32) -> bool {
    exists|l: int| 0 <= l < upto && #[trigger] falls_with(nodes, targets[l], id)
}

/// Every id of `nodes` is between 1 and `top`.
spec fn ids_in_range(nodes: Seq<AssetView>, top: u32) -> bool {
    forall|k: int| 0 <= k < nodes.len() ==> 1 <= (#[trigger] nodes[k]).id <= top
}

/// What stays of a list after the ids in `gone` were struck is what the list
/// held and `gone` does not, and nothing comes to stand twice.
proof fn lemma_filter_keeps(list: Seq<u32>, gone: Set<u32>)
    ensures
        forall|id: u32|
            #[trigger] list.filter(not_in(gone)).contains(id) <==> list.contains(id) && !gone.contains(id),
        list.no_duplicates() ==> list.filter(not_in(gone)).no_duplicates(),
    decreases list.len(),
{
    reveal(Seq::filter);
    let kept = list.filter(not_in(gone));
    if list.len() > 0 {
        let front = list.drop_last();
        let last = list.last();
        lemma_filter_keeps(front, gone);
        let kept_front = front.filter(not_in(gone));
        assert forall|id: u32| #[trigger] kept.contains(id) <==> list.contains(id) && !gone.contains(
            id,
        ) by {
            if kept.contains(id) {
                let j = choose|j: int| 0 <= j < kept.len() && kept[j] == id;
                if j < kept_front.len() {
                    assert(kept_front.contains(id));
                }
            }
        }
        if list.no_duplicates() {
            if !gone.contains(last) {
                assert forall|j: int| 0 <= j < kept_front.len() implies kept_front[j] != last by {
                    assert(kept_front.contains(kept_front[j]));
                }
            }
        }
    }
}

/// Files the nodes of `snapshot` under their ids; `None` where an id stands
/// twice or is not between 1 and the last id given out.
fn restore_nodes(snapshot: &AssetsSnapshot) -> (r: Option<HashMap<u32, Asset>>)
    ensures
        r is Some <==> distinct_ids(snapshot.nodes()) && ids_in_range(
            snapshot.nodes(),
            snapshot.asset_id,
        ) && acyclic(nodes_by_id(snapshot.nodes())),
        r matches Some(assets) ==> map_view(assets@) == nodes_by_id(snapshot.nodes()),
{
    let ghost nodes = snapshot.nodes();
    let mut assets: HashMap<u32, Asset> = HashMap::new();
    let mut k: usize = 0;
    while k < snapshot.assets.len()
        invariant
            nodes == snapshot.nodes(),
            k <= nodes.len(),
            acyclic(map_view(assets@)),
            forall|a: int| 0 <= a < k ==> 1 <= (#[trigger] nodes[a]).id <= snapshot.asset_id,
            forall|a: int, b: int| 0 <= a < b < k ==> (#[trigger] nodes[a]).id != (#[trigger] nodes[b]).id,
            forall|a: int|
                0 <= a < k ==> assets@.contains_key((#[trigger] nodes[a]).id) && assets@[nodes[a].id]@
                    == nodes[a],
            forall|id: u32| #[trigger]
                assets@.contains_key(id) ==> exists|a: int| 0 <= a < k && holds_id(nodes, a, id),
        decreases nodes.len() - k,
    {
        let asset = &snapshot.assets[k];
        let id = asset.id;
        assert(nodes[k as int] == asset@);
        if id < 1 || id > snapshot.asset_id {
            return None;
        }
        if assets.contains_key(&id) {
            return None;
        }
        let ghost filed = map_view(assets@);
        let closes = match asset.parent_id {
            Some(parent) => reaches(&assets, parent, id),
            None => false,
        };
        if closes {
            proof {
                let all = nodes_by_id(nodes);
                if distinct_ids(nodes) {
                    assert forall|other: u32| #[trigger] filed.contains_key(other) implies all.contains_key(
                        other,
                    ) && all[other].parent_id == filed[other].parent_id by {
                        let a = choose|a: int| 0 <= a < k && holds_id(nodes, a, other);
                        assert(holds_id(nodes, a, other));
                        let c = choose|c: int| holds_id(nodes, c, other);
                        if a < c {
                            assert(nodes[a].id != nodes[c].id);
                        } else if c < a {
                            assert(nodes[c].id != nodes[a].id);
                        }
                    }
                    let parent = asset.parent_id->Some_0;
                    let steps = choose|steps: nat| climbs(filed, parent, id, steps);
                    lemma_climb_within(filed, all, parent, id, steps);
                    assert(holds_id(nodes, k as int, id));
                    let c = choose|c: int| holds_id(nodes, c, id);
                    if k < c {
                        assert(nodes[k as int].id != nodes[c].id);
                    } else if c < k {
                        assert(nodes[c].id != nodes[k as int].id);
                    }
                    assert(parent_in(all, id) == Some(parent));
                    assert(climbs(all, id, id, steps + 1));
                }
            }
            return None;
        }
        assets.insert(id, asset.clone());
        proof {
            assert forall|other: u32| #[trigger] assets@.contains_key(other) implies exists|a: int|
                0 <= a < k + 1 && holds_id(nodes, a, other) by {
                if other == id {
                    assert(holds_id(nodes, k as int, other));
                }
            }
            assert(map_view(assets@) =~= filed.insert(id, asset@));
            assert(climbs(filed, id, id, 0));
            lemma_rehang_acyclic(filed, id, asset@);
        }
        k += 1;
    }
    proof {
        assert(map_view(assets@) =~= nodes_by_id(nodes));
    }
    Some(assets)
}

impl AssetsStore {
    /// The store's invariant holds; see [`AssetsStoreView::valid`].
    pub open spec fn wf(&self) -> bool {
        self@.valid()
    }

    /// An empty store that has given out no id yet.
    pub fn new() -> (store: AssetsStore)
        ensures
            store.wf(),
            store@.asset_id == 0,
            store@.assets == Map::<u32, AssetView>::empty(),
            store@.user_assets == Seq::<(Seq<u8>, Seq<u32>)>::empty(),
    {
        let store = AssetsStore { asset_id: 0, assets: HashMap::new(), user_assets: Vec::new() };
        proof {
            assert(store@.assets =~= Map::<u32, AssetView>::empty());
        }
        store
    }

    /// The id given out last; 0 before the first.
    pub fn asset_id(&self) -> (id: u32)
        ensures
            id == self@.asset_id,
    {
        self.asset_id
    }

    /// Where the index holds the entry of `principal`.
    fn find_entry(&self, principal: &Principal) -> (r: Option<usize>)
        requires
            self.wf(),
        ensures
            r is Some <==> has_entry(self@.user_assets, principal@),
            r matches Some(i) ==> i as int == entry_of(self@.user_assets, principal@) && i
                < self.user_assets@.len(),
    {
        let ghost index = self@.user_assets;
        let mut i: usize = 0;
        while i < self.user_assets.len()
            invariant
                self.wf(),
                index == self@.user_assets,
                i <= self.user_assets@.len(),
                forall|k: int| 0 <= k < i ==> #[trigger] index[k].0 != principal@,
            decreases self.user_assets@.len() - i,
        {
            if self.user_assets[i].user.same(principal) {
                proof {
                    assert(index[i as int].0 == principal@);
                }
                return Some(i);
            }
            i += 1;
        }
        None
    }

    /// Whether `id` is a node of `principal`.
    fn owns(&self, principal: &Principal, id: u32) -> (r: bool)
        requires
            self.wf(),
        ensures
            r == self@.owns(principal@, id),
    {
        match self.assets.get(&id) {
            Some(asset) => asset.user_id.same(principal),
            None => false,
        }
    }

    /// Whether every id of `ids` is a node of `principal`.
    fn owns_all(&self, principal: &Principal, ids: &Vec<u32>) -> (r: bool)
        requires
            self.wf(),
        ensures
            r <==> forall|k: int| 0 <= k < ids@.len() ==> self@.owns(principal@, #[trigger] ids@[k]),
    {
        let mut k: usize = 0;
        while k < ids.len()
            invariant
                self.wf(),
                k <= ids@.len(),
                forall|l: int| 0 <= l < k ==> self@.owns(principal@, #[trigger] ids@[l]),
            decreases ids@.len() - k,
        {
            if !self.owns(principal, ids[k]) {
                return false;
            }
            k += 1;
        }
        true
    }

    /// Whether hanging the node `id` under `parent` would make the node its
    /// own ancestor.
    fn closes_cycle(&self, id: u32, parent: Option<u32>) -> (r: bool)
        requires
            self.wf(),
        ensures
            r == closes_cycle(self@.assets, id, parent),
    {
        match parent {
            Some(p) => {
                assert(climbs(self@.assets, p, p, 0));
                reaches(&self.assets, p, id)
            },
            None => false,
        }
    }

    /// Puts `asset` in the place of the node with the same id and owner.
    fn replace(&mut self, asset: Asset)
        requires
            old(self).wf(),
            old(self)@.owns(asset.user_id@, asset.id),
            !closes_cycle(old(self)@.assets, asset.id, asset.parent_id),
        ensures
            final(self).wf(),
            final(self)@ == (AssetsStoreView {
                assets: old(self)@.assets.insert(asset.id, asset@),
                ..old(self)@
            }),
    {
        let ghost before = self@;
        let ghost value = asset@;
        self.assets.insert(asset.id, asset);
        proof {
            let after = self@;
            assert(after.assets =~= before.assets.insert(value.id, value));
            assert(after.user_assets == before.user_assets);
            lemma_rehang_acyclic(before.assets, value.id, value);
        }
    }

    /// All nodes of all owners: owner after owner in the order in which
    /// they first added a node, each owner's nodes oldest first.
    pub fn get_all_assets(&self) -> (list: Vec<Asset>)
        requires
            self.wf(),
        ensures
            assets_view(list@) == self@.all_nodes(),
    {
        let mut list: Vec<Asset> = Vec::new();
        let ghost index = self@.user_assets;
        let mut i: usize = 0;
        while i < self.user_assets.len()
            invariant
                self.wf(),
                index == self@.user_assets,
                i <= self.user_assets@.len(),
                assets_view(list@) == self@.nodes_upto(i as nat),
            decreases self.user_assets@.len() - i,
        {
            let ids = &self.user_assets[i].ids;
            let ghost front = assets_view(list@);
            let mut j: usize = 0;
            while j < ids.len()
                invariant
                    self.wf(),
                    index == self@.user_assets,
                    i < self.user_assets@.len(),
                    ids@ == index[i as int].1,
                    j <= ids@.len(),
                    assets_view(list@) == front + self@.entry_nodes(i as int).subrange(0, j as int),
                decreases ids@.len() - j,
            {
                let ghost before = assets_view(list@);
                proof {
                    assert(listed(index, i as int, j as int, ids@[j as int]));
                }
                match self.assets.get(&ids[j]) {
                    Some(asset) => list.push(asset.clone()),
                    None => {},
                }
                proof {
                    assert(assets_view(list@) =~= before.push(self@.assets[ids@[j as int]]));
                }
                j += 1;
            }
            i += 1;
        }
        list
    }

    /// The nodes of `principal`, oldest first.
    pub fn get_user_assets(&self, principal: Principal) -> (list: Vec<Asset>)
        requires
            self.wf(),
        ensures
            assets_view(list@) == self@.nodes_of(principal@),
    {
        let mut list: Vec<Asset> = Vec::new();
        match self.find_entry(&principal) {
            Some(e) => {
                let ids = &self.user_assets[e].ids;
                let ghost index = self@.user_assets;
                let mut j: usize = 0;
                while j < ids.len()
                    invariant
                        self.wf(),
                        index == self@.user_assets,
                        e < self.user_assets@.len(),
                        ids@ == index[e as int].1,
                        j <= ids@.len(),
                        list@.len() == j,
                        forall|k: int| 0 <= k < j ==> list@[k]@ == self@.assets[ids@[k]],
                    decreases ids@.len() - j,
                {
                    proof {
                        assert(listed(index, e as int, j as int, ids@[j as int]));
                    }
                    match self.assets.get(&ids[j]) {
                        Some(asset) => list.push(asset.clone()),
                        None => {},
                    }
                    j += 1;
                }
            },
            None => {
            },
        }
        list
    }

    /// Creates a node for `principal` from `post_asset` at time `now`, under
    /// the next id. Whether the parent named exists and whose it is is not
    /// examined. Where hanging the node there would make it its own
    /// ancestor, the node is created at the root instead.
    pub fn add_asset(&mut self, principal: Principal, post_asset: PostAsset, now: u64) -> (asset: Asset)
        requires
            old(self).wf(),
            old(self)@.asset_id < u32::MAX,
        ensures
            final(self).wf(),
            asset@ == created(
                old(self)@.assets,
                (old(self)@.asset_id + 1) as u32,
                principal@,
                post_asset,
                now,
            ),
            final(self)@.asset_id == old(self)@.asset_id + 1,
            final(self)@.assets == old(self)@.assets.insert(asset.id, asset@),
            final(self)@.user_assets == index_with(old(self)@.user_assets, principal@, asset.id),
    {
        let ghost before = self@;
        let entry = self.find_entry(&principal);
        let asset_id = self.asset_id + 1;
        let parent_id = if self.closes_cycle(asset_id, post_asset.parent_id) {
            None
        } else {
            post_asset.parent_id
        };
        self.asset_id = asset_id;
        let new_asset = Asset {
            id: asset_id,
            user_id: principal.clone(),
            parent_id,
            asset_type: post_asset.asset_type,
            name: post_asset.name,
            is_favorite: false,
            size: post_asset.size,
            extension: post_asset.extension,
            mime_type: post_asset.mime_type,
            chunks: post_asset.chunks,
            created_at: now,
            updated_at: now,
        };
        self.assets.insert(asset_id, new_asset.clone());
        match entry {
            Some(e) => {
                self.user_assets[e].ids.push(asset_id);
            },
            None => {
                let mut ids: Vec<u32> = Vec::new();
                ids.push(asset_id);
                self.user_assets.push(UserAssets { user: principal, ids });
            },
        }
        proof {
            let after = self@;
            let old_index = before.user_assets;
            let index = after.user_assets;
            assert(after.assets =~= before.assets.insert(asset_id, new_asset@));
            assert(index =~= index_with(old_index, principal@, asset_id));
            lemma_rehang_acyclic(before.assets, asset_id, new_asset@);
            assert forall|i: int, j: int, id: u32| #[trigger] listed(index, i, j, id) implies after.owns(
                index[i].0,
                id,
            ) by {
                if i < old_index.len() && j < old_index[i].1.len() {
                    assert(listed(old_index, i, j, id));
                }
            }
            assert forall|id: u32| after.assets.contains_key(id) implies exists|i: int, j: int| #[trigger]
                listed(index, i, j, id) by {
                if id != asset_id {
                    let (i, j) = choose|i: int, j: int| #[trigger] listed(old_index, i, j, id);
                    assert(listed(index, i, j, id));
                } else if has_entry(old_index, principal@) {
                    let e = entry_of(old_index, principal@);
                    assert(listed(index, e, old_index[e].1.len() as int, id));
                } else {
                    assert(listed(index, old_index.len() as int, 0, id));
                }
            }
            assert forall|i: int| 0 <= i < index.len() implies (#[trigger] index[i]).1.no_duplicates() by {
                if i < old_index.len() {
                    assert forall|j: int| 0 <= j < old_index[i].1.len() implies old_index[i].1[j]
                        != asset_id by {
                        assert(listed(old_index, i, j, old_index[i].1[j]));
                    }
                }
            }
        }
        new_asset
    }

    /// Applies `edit_asset` to the node it names, at time `now`, if that
    /// node belongs to `principal`. Whether a new parent exists and whose it
    /// is is not examined. A new parent that would make the node its own
    /// ancestor is not applied: the node stays where it hangs, and the rest
    /// of the patch is applied.
    pub fn edit_asset(&mut self, principal: Principal, edit_asset: EditAsset, now: u64) -> (r: Result<
        Asset,
        ApiError,
    >)
        requires
            old(self).wf(),
        ensures
            final(self).wf(),
            r is Ok <==> old(self)@.owns(principal@, edit_asset.id),
            match r {
                Ok(asset) => {
                    &&& asset@ == edited(
                        old(self)@.assets,
                        old(self)@.assets[edit_asset.id],
                        edit_asset,
                        now,
                    )
                    &&& final(self)@ == (AssetsStoreView {
                        assets: old(self)@.assets.insert(edit_asset.id, asset@),
                        ..old(self)@
                    })
                },
                Err(e) => e@ == asset_not_found() && final(self)@ == old(self)@,
            },
    {
        let found = match self.assets.get(&edit_asset.id) {
            Some(asset) => asset,
            None => {
                return Err(ApiError::asset_not_found());
            },
        };
        if !found.user_id.same(&principal) {
            return Err(ApiError::asset_not_found());
        }
        let parent_id = match edit_asset.parent_id {
            Some(parent) => if self.closes_cycle(found.id, Some(parent)) {
                found.parent_id
            } else {
                Some(parent)
            },
            None => found.parent_id,
        };
        proof {
            assert(self@.assets.contains_key(edit_asset.id) && self@.assets[edit_asset.id] == found@);
            lemma_own_parent_is_free(self@.assets, found.id);
        }
        let name = match edit_asset.name {
            Some(name) => name,
            None => found.name.clone(),
        };
        let extension = match found.asset_type {
            AssetType::File => match edit_asset.extension {
                Some(extension) => extension,
                None => found.extension.clone(),
            },
            AssetType::Folder => String::new(),
        };
        let is_favorite = match edit_asset.is_favorite {
            Some(is_favorite) => is_favorite,
            None => found.is_favorite,
        };
        let asset = Asset {
            id: found.id,
            user_id: found.user_id.clone(),
            parent_id,
            asset_type: found.asset_type,
            name,
            is_favorite,
            size: found.size,
            extension,
            mime_type: found.mime_type.clone(),
            chunks: found.chunks.clone(),
            created_at: found.created_at,
            updated_at: now,
        };
        let copy = asset.clone();
        self.replace(asset);
        Ok(copy)
    }

    /// Hangs each node that `move_assets` names under the parent given with
    /// it, at time `now`, in the order of the batch. Nothing is changed
    /// unless every named node belongs to `principal`. A move that would
    /// make a node its own ancestor, as the nodes stand at its turn, is
    /// passed over: the node stays as it is. The result holds one node per
    /// move, as it stood right after that move.
    pub fn move_assets(&mut self, principal: Principal, move_assets: Vec<MoveAsset>, now: u64) -> (r:
        Result<Vec<Asset>, ApiError>)
        requires
            old(self).wf(),
        ensures
            final(self).wf(),
            r is Ok <==> forall|k: int|
                0 <= k < move_assets@.len() ==> old(self)@.owns(principal@, (#[trigger] move_assets@[k]).id),
            match r {
                Ok(list) => {
                    &&& list@.len() == move_assets@.len()
                    &&& forall|k: int|
                        0 <= k < list@.len() ==> (#[trigger] list@[k])@ == stood_after(
                            old(self)@.assets,
                            move_assets@,
                            now,
                            k,
                        )
                    &&& forall|k: int|
                        #![trigger list@[k]]
                        #![trigger final(self)@.assets[move_assets@[k].id]]
                        0 <= k < list@.len() && (forall|l: int|
                            k < l < move_assets@.len() ==> (#[trigger] move_assets@[l]).id
                                != move_assets@[k].id) ==> final(self)@.assets[move_assets@[k].id]
                            == list@[k]@
                    &&& final(self)@ == (AssetsStoreView {
                        assets: moves_applied(old(self)@.assets, move_assets@, now),
                        ..old(self)@
                    })
                },
                Err(e) => e@ == asset_not_found() && final(self)@ == old(self)@,
            },
    {
        let ghost before = self@;
        let mut k: usize = 0;
        while k < move_assets.len()
            invariant
                self.wf(),
                k <= move_assets@.len(),
                forall|l: int| 0 <= l < k ==> self@.owns(principal@, (#[trigger] move_assets@[l]).id),
            decreases move_assets@.len() - k,
        {
            if !self.owns(&principal, move_assets[k].id) {
                return Err(ApiError::asset_not_found());
            }
            k += 1;
        }
        let mut temp: Vec<Asset> = Vec::new();
        let mut k: usize = 0;
        while k < move_assets.len()
            invariant
                self.wf(),
                before.valid(),
                k <= move_assets@.len(),
                forall|l: int|
                    0 <= l < move_assets@.len() ==> before.owns(principal@, (#[trigger] move_assets@[l]).id),
                temp@.len() == k,
                forall|l: int|
                    0 <= l < k ==> (#[trigger] temp@[l])@ == stood_after(
                        before.assets,
                        move_assets@,
                        now,
                        l,
                    ),
                self@ == (AssetsStoreView {
                    assets: moves_applied(before.assets, move_assets@.subrange(0, k as int), now),
                    ..before
                }),
            decreases move_assets@.len() - k,
        {
            let move_asset = move_assets[k];
            proof {
                lemma_moves_keep_rest(before.assets, move_assets@.subrange(0, k as int), now);
                assert(move_assets@.subrange(0, k + 1).drop_last() =~= move_assets@.subrange(
                    0,
                    k as int,
                ));
            }
            let ghost earlier = self@.assets;
            match self.assets.get(&move_asset.id) {
                Some(found) => {
                    if self.closes_cycle(move_asset.id, move_asset.parent_id) {
                        temp.push(found.clone());
                        proof {
                            assert(earlier.insert(move_asset.id, earlier[move_asset.id]) =~= earlier);
                        }
                    } else {
                        let asset = Asset {
                            id: found.id,
                            user_id: found.user_id.clone(),
                            parent_id: move_asset.parent_id,
                            asset_type: found.asset_type,
                            name: found.name.clone(),
                            is_favorite: found.is_favorite,
                            size: found.size,
                            extension: found.extension.clone(),
                            mime_type: found.mime_type.clone(),
                            chunks: found.chunks.clone(),
                            created_at: found.created_at,
                            updated_at: now,
                        };
                        temp.push(asset.clone());
                        self.replace(asset);
                    }
                },
                None => {},
            }
            k += 1;
        }
        proof {
            assert(move_assets@.subrange(0, k as int) =~= move_assets@);
            assert forall|k: int|
                0 <= k < temp@.len() && (forall|l: int|
                    k < l < move_assets@.len() ==> (#[trigger] move_assets@[l]).id
                        != move_assets@[k].id) implies self@.assets[move_assets@[k].id] == (
            #[trigger] temp@[k])@ by {
                lemma_moves_last_wins(before.assets, move_assets@, now, k);
            }
        }
        Ok(temp)
    }

    /// The ids that a cascading delete of `targets` takes away, each once:
    /// every target, followed by its descendants that are not yet listed.
    fn collect_doomed(&self, principal: &Principal, targets: &Vec<u32>) -> (removed: Vec<u32>)
        requires
            self.wf(),
            forall|k: int| 0 <= k < targets@.len() ==> self@.owns(principal@, #[trigger] targets@[k]),
        ensures
            removed@.no_duplicates(),
            removed@.to_set() == self@.doomed(principal@, targets@),
            forall|m: int| 0 <= m < removed@.len() ==> self@.owns(principal@, #[trigger] removed@[m]),
    {
        let nodes = self.get_user_assets(principal.clone());
        let ghost links = self@.nodes_of(principal@);
        let mut removed: Vec<u32> = Vec::new();
        let mut gone: HashSet<u32> = HashSet::new();
        let mut k: usize = 0;
        while k < targets.len()
            invariant
                self.wf(),
                links == self@.nodes_of(principal@),
                assets_view(nodes@) == links,
                forall|l: int|
                    0 <= l < targets@.len() ==> self@.owns(principal@, #[trigger] targets@[l]),
                k <= targets@.len(),
                removed@.no_duplicates(),
                forall|id: u32| gone@.contains(id) <==> removed@.contains(id),
                forall|id: u32| #[trigger] gone@.contains(id) <==> fallen(links, targets@, k as int, id),
                forall|id: u32| gone@.contains(id) ==> self@.owns(principal@, id),
            decreases targets@.len() - k,
        {
            let target = targets[k];
            let ghost gone_before = gone@;
            let ghost removed_before = removed@;
            if gone.insert(target) {
                removed.push(target);
                proof {
                    lemma_push_keeps_agreement(removed_before, gone_before, target);
                }
            }
            let children = get_nested_child_assets(&nodes, &target);
            let mut j: usize = 0;
            while j < children.len()
                invariant
                    self.wf(),
                    links == self@.nodes_of(principal@),
                    children@.to_set() == nested_children(links, target),
                    j <= children@.len(),
                    removed@.no_duplicates(),
                    forall|id: u32| gone@.contains(id) <==> removed@.contains(id),
                    forall|id: u32|
                        #[trigger] gone@.contains(id) <==> gone_before.contains(id) || id == target
                            || among(children@, j as int, id),
                    forall|id: u32| gone@.contains(id) ==> self@.owns(principal@, id),
                decreases children@.len() - j,
            {
                let child = children[j];
                let ghost removed_then = removed@;
                let ghost gone_then = gone@;
                proof {
                    assert(children@.to_set().contains(child));
                    let (i, parent) = choose|i: int, parent: u32| #[trigger]
                        child_at(links, i, parent) && links[i].id == child;
                    let ids = self@.ids_of(principal@);
                    assert(listed(
                        self@.user_assets,
                        entry_of(self@.user_assets, principal@),
                        i,
                        ids[i],
                    ));
                }
                if gone.insert(child) {
                    removed.push(child);
                    proof {
                        lemma_push_keeps_agreement(removed_then, gone_then, child);
                    }
                }
                j += 1;
            }
            proof {
                assert forall|id: u32| #[trigger]
                    gone@.contains(id) <==> fallen(links, targets@, k + 1, id) by {
                    if among(children@, j as int, id) {
                        assert(children@.to_set().contains(id));
                        assert(falls_with(links, targets@[k as int], id));
                    }
                    if id == target {
                        assert(falls_with(links, targets@[k as int], id));
                    }
                    if fallen(links, targets@, k + 1, id) {
                        let l = choose|l: int|
                            0 <= l < k + 1 && #[trigger] falls_with(links, targets@[l], id);
                        if l >= k && id != target {
                            assert(children@.to_set().contains(id));
                        }
                    }
                }
            }
            k += 1;
        }
        proof {
            assert forall|m: int| 0 <= m < removed@.len() implies self@.owns(
                principal@,
                #[trigger] removed@[m],
            ) by {
                assert(removed@.contains(removed@[m]));
            }
        }
        removed
    }

    /// Takes the nodes listed in `removed` out of the store and out of the
    /// index entry of `principal`, who owns them all.
    fn strike(&mut self, principal: &Principal, removed: &Vec<u32>)
        requires
            old(self).wf(),
            forall|m: int| 0 <= m < removed@.len() ==> old(self)@.owns(principal@, #[trigger] removed@[m]),
        ensures
            final(self).wf(),
            final(self)@ == (AssetsStoreView {
                asset_id: old(self)@.asset_id,
                assets: old(self)@.assets.remove_keys(removed@.to_set()),
                user_assets: index_without(old(self)@.user_assets, principal@, removed@.to_set()),
            }),
    {
        let ghost before = self@;
        let ghost nodes_before = self.assets@;
        let entry = self.find_entry(principal);
        let mut gone: HashSet<u32> = HashSet::new();
        let mut m: usize = 0;
        while m < removed.len()
            invariant
                m <= removed@.len(),
                self@ == before,
                self.assets@ == nodes_before,
                forall|id: u32| #[trigger] gone@.contains(id) <==> among(removed@, m as int, id),
                forall|id: u32|
                    #[trigger] self.assets@.contains_key(id) <==> nodes_before.contains_key(id) && !among(
                        removed@,
                        0,
                        id,
                    ),
            decreases removed@.len() - m,
        {
            gone.insert(removed[m]);
            m += 1;
        }
        let mut m: usize = 0;
        while m < removed.len()
            invariant
                m <= removed@.len(),
                self.asset_id == before.asset_id,
                self@.user_assets == before.user_assets,
                forall|id: u32|
                    #[trigger] self.assets@.contains_key(id) <==> nodes_before.contains_key(id) && !among(
                        removed@,
                        m as int,
                        id,
                    ),
                forall|id: u32|
                    #[trigger] self.assets@.contains_key(id) ==> self.assets@[id] == nodes_before[id],
            decreases removed@.len() - m,
        {
            self.assets.remove(&removed[m]);
            m += 1;
        }
        let ghost struck = removed@.to_set();
        proof {
            assert(self@.assets =~= before.assets.remove_keys(struck));
        }
        match entry {
            Some(e) => {
                let mut kept: Vec<u32> = Vec::new();
                let mut j: usize = 0;
                let ghost ids = before.user_assets[e as int].1;
                while j < self.user_assets[e].ids.len()
                    invariant
                        e < self.user_assets@.len(),
                        self.user_assets@[e as int].ids@ == ids,
                        j <= ids.len(),
                        gone@ == struck,
                        kept@ == ids.subrange(0, j as int).filter(not_in(struck)),
                    decreases ids.len() - j,
                {
                    let id = self.user_assets[e].ids[j];
                    proof {
                        reveal(Seq::filter);
                        assert(ids.subrange(0, j + 1).drop_last() =~= ids.subrange(0, j as int));
                    }
                    if !gone.contains(&id) {
                        kept.push(id);
                    }
                    j += 1;
                }
                proof {
                    assert(ids.subrange(0, j as int) =~= ids);
                }
                self.user_assets[e].ids = kept;
            },
            None => {},
        }
        proof {
            let after = self@;
            let old_index = before.user_assets;
            let index = after.user_assets;
            assert(index =~= index_without(old_index, principal@, struck));
            if has_entry(old_index, principal@) {
                let e = entry_of(old_index, principal@);
                lemma_filter_keeps(old_index[e].1, struck);
                assert forall|i: int, j: int, id: u32| #[trigger] listed(index, i, j, id) implies after.owns(
                    index[i].0,
                    id,
                ) by {
                    if i == e {
                        assert(index[e].1.contains(id));
                        let l = choose|l: int| 0 <= l < old_index[e].1.len() && old_index[e].1[l] == id;
                        assert(listed(old_index, e, l, id));
                    } else {
                        assert(listed(old_index, i, j, id));
                    }
                }
                assert forall|id: u32| after.assets.contains_key(id) implies exists|i: int, j: int| #[trigger]
                    listed(index, i, j, id) by {
                    let (i, j) = choose|i: int, j: int| #[trigger] listed(old_index, i, j, id);
                    if i == e {
                        assert(index[e].1.contains(id));
                        let l = choose|l: int| 0 <= l < index[e].1.len() && index[e].1[l] == id;
                        assert(listed(index, e, l, id));
                    } else {
                        assert(listed(index, i, j, id));
                    }
                }
            }
            assert(after.assets.dom() =~= self.assets@.dom());
            lemma_fewer_nodes_acyclic(after.assets, before.assets);
        }
    }

    /// Deletes the nodes that `delete_asset_ids` names and, with each, all
    /// its transitive descendants among the nodes of `principal`. Nothing is
    /// deleted unless every named node belongs to `principal`. The result
    /// lists what was deleted, each id once.
    pub fn delete_assets(&mut self, principal: Principal, delete_asset_ids: Vec<u32>) -> (r: Result<
        Vec<u32>,
        ApiError,
    >)
        requires
            old(self).wf(),
        ensures
            final(self).wf(),
            r is Ok <==> forall|k: int|
                0 <= k < delete_asset_ids@.len() ==> old(self)@.owns(
                    principal@,
                    #[trigger] delete_asset_ids@[k],
                ),
            match r {
                Ok(removed) => {
                    &&& removed@.no_duplicates()
                    &&& removed@.to_set() == old(self)@.doomed(principal@, delete_asset_ids@)
                    &&& final(self)@ == (AssetsStoreView {
                        asset_id: old(self)@.asset_id,
                        assets: old(self)@.assets.remove_keys(removed@.to_set()),
                        user_assets: index_without(
                            old(self)@.user_assets,
                            principal@,
                            removed@.to_set(),
                        ),
                    })
                },
                Err(e) => e@ == asset_not_found() && final(self)@ == old(self)@,
            },
    {
        if !self.owns_all(&principal, &delete_asset_ids) {
            return Err(ApiError::asset_not_found());
        }
        let removed = self.collect_doomed(&principal, &delete_asset_ids);
        self.strike(&principal, &removed);
        Ok(removed)
    }

    /// Deletes exactly the nodes that `delete_asset_ids` names, and leaves
    /// what hangs under them in place. Nothing is deleted unless every named
    /// node belongs to `principal`. The result is the list as it was given.
    pub fn delete_assets_flat(&mut self, principal: Principal, delete_asset_ids: Vec<u32>) -> (r: Result<
        Vec<u32>,
        ApiError,
    >)
        requires
            old(self).wf(),
        ensures
            final(self).wf(),
            r is Ok <==> forall|k: int|
                0 <= k < delete_asset_ids@.len() ==> old(self)@.owns(
                    principal@,
                    #[trigger] delete_asset_ids@[k],
                ),
            match r {
                Ok(removed) => {
                    &&& removed@ == delete_asset_ids@
                    &&& final(self)@ == (AssetsStoreView {
                        asset_id: old(self)@.asset_id,
                        assets: old(self)@.assets.remove_keys(removed@.to_set()),
                        user_assets: index_without(
                            old(self)@.user_assets,
                            principal@,
                            removed@.to_set(),
                        ),
                    })
                },
                Err(e) => e@ == asset_not_found() && final(self)@ == old(self)@,
            },
    {
        if !self.owns_all(&principal, &delete_asset_ids) {
            return Err(ApiError::asset_not_found());
        }
        self.strike(&principal, &delete_asset_ids);
        Ok(delete_asset_ids)
    }

    /// The whole state, to be written out before a restart: the counter,
    /// all nodes as `get_all_assets` lists them, and the index. Restoring it
    /// gives a store equal to this one.
    pub fn snapshot(&self) -> (snapshot: AssetsSnapshot)
        requires
            self.wf(),
        ensures
            snapshot.sound(),
            snapshot.state() == self@,
            snapshot.nodes() == self@.all_nodes(),
    {
        let assets = self.get_all_assets();
        let mut user_assets: Vec<(Principal, Vec<u32>)> = Vec::new();
        let ghost index = self@.user_assets;
        let mut i: usize = 0;
        while i < self.user_assets.len()
            invariant
                index == self@.user_assets,
                i <= self.user_assets@.len(),
                user_assets@.len() == i,
                forall|k: int|
                    0 <= k < i ==> (#[trigger] user_assets@[k]).0@ == index[k].0 && user_assets@[k].1@
                        == index[k].1,
            decreases self.user_assets@.len() - i,
        {
            let entry = &self.user_assets[i];
            user_assets.push((entry.user.clone(), entry.ids.clone()));
            i += 1;
        }
        let snapshot = AssetsSnapshot { asset_id: self.asset_id, assets, user_assets };
        proof {
            self@.lemma_all_nodes();
            assert(snapshot.index() =~= index);
        }
        snapshot
    }

    /// The store that `snapshot` describes; `None` where it describes none,
    /// because a node id stands twice, or counter, nodes and index do not
    /// meet the store's invariant.
    pub fn restore(snapshot: AssetsSnapshot) -> (r: Option<AssetsStore>)
        ensures
            r is Some <==> snapshot.sound(),
            r matches Some(store) ==> store.wf() && store@ == snapshot.state(),
    {
        let ghost nodes = snapshot.nodes();
        let ghost index = snapshot.index();
        let ghost state = snapshot.state();
        let assets = match restore_nodes(&snapshot) {
            Some(assets) => assets,
            None => {
                proof {
                    if distinct_ids(nodes) && acyclic(state.assets) {
                        let k = choose|k: int|
                            0 <= k < nodes.len() && !(1 <= (#[trigger] nodes[k]).id <= snapshot.asset_id);
                        assert(holds_id(nodes, k, nodes[k].id));
                        assert(state.assets.contains_key(nodes[k].id));
                    }
                }
                return None;
            },
        };
        let mut user_assets: Vec<UserAssets> = Vec::new();
        let mut indexed: HashSet<u32> = HashSet::new();
        let mut i: usize = 0;
        while i < snapshot.user_assets.len()
            invariant
                nodes == snapshot.nodes(),
                index == snapshot.index(),
                state == snapshot.state(),
                map_view(assets@) == state.assets,
                i <= index.len(),
                user_assets@.len() == i,
                forall|a: int|
                    0 <= a < i ==> (#[trigger] user_assets@[a]).user@ == index[a].0 && user_assets@[a].ids@
                        == index[a].1,
                forall|a: int, b: int| 0 <= a < b < i ==> #[trigger] index[a].0 != #[trigger] index[b].0,
                forall|a: int| 0 <= a < i ==> (#[trigger] index[a]).1.no_duplicates(),
                forall|a: int, b: int, id: u32|
                    a < i && #[trigger] listed(index, a, b, id) ==> state.owns(index[a].0, id)
                        && indexed@.contains(id),
                forall|id: u32| #[trigger]
                    indexed@.contains(id) ==> exists|a: int, b: int|
                        a < i && #[trigger] listed(index, a, b, id),
            decreases index.len() - i,
        {
            let entry = &snapshot.user_assets[i];
            let mut a: usize = 0;
            while a < i
                invariant
                    index == snapshot.index(),
                    a <= i < index.len(),
                    user_assets@.len() == i,
                    entry.0@ == index[i as int].0,
                    forall|c: int| 0 <= c < i ==> (#[trigger] user_assets@[c]).user@ == index[c].0,
                    forall|c: int| 0 <= c < a ==> #[trigger] index[c].0 != index[i as int].0,
                decreases i - a,
            {
                if user_assets[a].user.same(&entry.0) {
                    proof {
                        let described = snapshot.state();
                        assert(described.user_assets[a as int].0 == described.user_assets[i as int].0);
                    }
                    return None;
                }
                a += 1;
            }
            let mut j: usize = 0;
            while j < entry.1.len()
                invariant
                    nodes == snapshot.nodes(),
                    index == snapshot.index(),
                    state == snapshot.state(),
                    map_view(assets@) == state.assets,
                    i < index.len(),
                    index[i as int] == (entry.0@, entry.1@),
                    j <= entry.1@.len(),
                    forall|a: int, b: int| 0 <= a < b < i ==> #[trigger] index[a].0 != #[trigger] index[b].0,
                    forall|c: int| 0 <= c < i ==> #[trigger] index[c].0 != index[i as int].0,
                    forall|a: int, b: int, id: u32|
                        a < i && #[trigger] listed(index, a, b, id) ==> state.owns(index[a].0, id)
                            && indexed@.contains(id),
                    forall|b: int|
                        0 <= b < j ==> state.owns(index[i as int].0, #[trigger] entry.1@[b])
                            && indexed@.contains(entry.1@[b]),
                    forall|b: int, c: int| 0 <= b < c < j ==> entry.1@[b] != entry.1@[c],
                    forall|id: u32| #[trigger]
                        indexed@.contains(id) ==> (exists|a: int, b: int|
                            a < i && #[trigger] listed(index, a, b, id)) || among(entry.1@, j as int, id),
                decreases entry.1@.len() - j,
            {
                let id = entry.1[j];
                let mine = match assets.get(&id) {
                    Some(asset) => asset.user_id.same(&entry.0),
                    None => false,
                };
                if !mine {
                    assert(listed(state.user_assets, i as int, j as int, id));
                    return None;
                }
                if !indexed.insert(id) {
                    return None;
                }
                j += 1;
            }
            user_assets.push(UserAssets { user: entry.0.clone(), ids: entry.1.clone() });
            proof {
                assert forall|id: u32| #[trigger] indexed@.contains(id) implies exists|a: int, b: int|
                    a < i + 1 && #[trigger] listed(index, a, b, id) by {
                    if among(entry.1@, j as int, id) {
                        let b = choose|b: int| 0 <= b < j && #[trigger] entry.1@[b] == id;
                        assert(listed(index, i as int, b, id));
                    }
                }
            }
            i += 1;
        }
        let mut k: usize = 0;
        while k < snapshot.assets.len()
            invariant
                nodes == snapshot.nodes(),
                index == snapshot.index(),
                state == snapshot.state(),
                k <= nodes.len(),
                i == index.len(),
                forall|a: int, b: int, id: u32|
                    a < i && #[trigger] listed(index, a, b, id) ==> indexed@.contains(id),
                forall|c: int| 0 <= c < k ==> indexed@.contains((#[trigger] nodes[c]).id),
            decreases nodes.len() - k,
        {
            if !indexed.contains(&snapshot.assets[k].id) {
                proof {
                    let id = nodes[k as int].id;
                    assert(holds_id(nodes, k as int, id));
                    assert(state.assets.contains_key(id));
                }
                return None;
            }
            k += 1;
        }
        let store = AssetsStore { asset_id: snapshot.asset_id, assets, user_assets };
        proof {
            assert(store@.user_assets =~= index);
            assert(state.assets.dom() =~= store.assets@.dom());
        }
        Some(store)
    }

    /// The store as it comes back from a restart: written out and read back,
    /// it is equal to this one.
    pub fn reload(&self) -> (store: AssetsStore)
        requires
            self.wf(),
        ensures
            store.wf(),
            store@ == self@,
    {
        match AssetsStore::restore(self.snapshot()) {
            Some(store) => store,
            None => unreached(),
        }
    }
}

} // verus!
