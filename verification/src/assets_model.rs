use vstd::prelude::*;
use crate::assets_links::{acyclic, climbs, closes_cycle, free_parent, parent_in};
use crate::principal::Principal;
use crate::types::asset::{assets_view, Asset, AssetType, AssetView, EditAsset, MoveAsset, PostAsset};
use crate::utils::{child_at, folder_at, is_nested_child, nested_children, reached, reached_in};

verus! {

/// The mathematical value of an [`AssetsStore`].
pub struct AssetsStoreView {
    /// The id given out last.
    pub asset_id: u32,
    /// All nodes, by id.
    pub assets: Map<u32, AssetView>,
    /// The secondary index: owners in order of their first node, each with
    /// the ids of the owner's nodes, oldest first.
    pub user_assets: Seq<(Seq<u8>, Seq<u32>)>,
}

/// `index` has an entry for `owner`.
pub open spec fn has_entry(index: Seq<(Seq<u8>, Seq<u32>)>, owner: Seq<u8>) -> bool {
    exists|i: int| 0 <= i < index.len() && #[trigger] index[i].0 == owner
}

/// The position of an entry of `owner` in `index`, if there is one.
pub open spec fn entry_of(index: Seq<(Seq<u8>, Seq<u32>)>, owner: Seq<u8>) -> int {
    choose|i: int| 0 <= i < index.len() && #[trigger] index[i].0 == owner
}

/// `id` stands at place `j` of entry `i` of `index`.
pub open spec fn listed(index: Seq<(Seq<u8>, Seq<u32>)>, i: int, j: int, id: u32) -> bool {
    0 <= i < index.len() && 0 <= j < index[i].1.len() && index[i].1[j] == id
}

/// `index` after `id` was filed under `owner`: appended to the owner's
/// entry, or to a new last entry when the owner had none.
pub open spec fn index_with(index: Seq<(Seq<u8>, Seq<u32>)>, owner: Seq<u8>, id: u32) -> Seq<
    (Seq<u8>, Seq<u32>),
> {
    if has_entry(index, owner) {
        let i = entry_of(index, owner);
        index.update(i, (owner, index[i].1.push(id)))
    } else {
        index.push((owner, seq![id]))
    }
}

/// The test that an id is not in `gone`.
pub open spec fn not_in(gone: Set<u32>) -> spec_fn(u32) -> bool {
    |id: u32| !gone.contains(id)
}

/// `index` after the ids in `gone` were struck from the entry of `owner`.
/// What stays keeps its order.
pub open spec fn index_without(index: Seq<(Seq<u8>, Seq<u32>)>, owner: Seq<u8>, gone: Set<u32>) -> Seq<
    (Seq<u8>, Seq<u32>),
> {
    if has_entry(index, owner) {
        let i = entry_of(index, owner);
        index.update(i, (owner, index[i].1.filter(not_in(gone))))
    } else {
        index
    }
}

/// The node that `add_asset` makes among `nodes` for `owner` from `post`
/// under `id` at time `now`. It hangs where `post` asks, or at the root
/// where that would make it its own ancestor.
pub open spec fn created(
    nodes: Map<u32, AssetView>,
    id: u32,
    owner: Seq<u8>,
    post: PostAsset,
    now: u64,
) -> AssetView {
    AssetView {
        id,
        user_id: owner,
        parent_id: free_parent(nodes, id, post.parent_id, None),
        asset_type: post.asset_type,
        name: post.name@,
        is_favorite: false,
        size: post.size,
        extension: post.extension@,
        mime_type: post.mime_type@,
        chunks: post.chunks@,
        created_at: now,
        updated_at: now,
    }
}

/// `asset`, a node of `nodes`, after `patch` was applied at time `now`. A
/// field absent from the patch keeps its value, and so does the parent
/// where the one asked for would make the node its own ancestor. A folder's
/// extension becomes empty, whatever the patch holds.
pub open spec fn edited(
    nodes: Map<u32, AssetView>,
    asset: AssetView,
    patch: EditAsset,
    now: u64,
) -> AssetView {
    AssetView {
        parent_id: if patch.parent_id is Some {
            free_parent(nodes, asset.id, patch.parent_id, asset.parent_id)
        } else {
            asset.parent_id
        },
        name: match patch.name {
            Some(name) => name@,
            None => asset.name,
        },
        extension: match asset.asset_type {
            AssetType::File => match patch.extension {
                Some(extension) => extension@,
                None => asset.extension,
            },
            AssetType::Folder => Seq::empty(),
        },
        is_favorite: match patch.is_favorite {
            Some(is_favorite) => is_favorite,
            None => asset.is_favorite,
        },
        updated_at: now,
        ..asset
    }
}

/// `asset` after it was hung under `parent_id` at time `now`.
pub open spec fn moved(asset: AssetView, parent_id: Option<u32>, now: u64) -> AssetView {
    AssetView { parent_id, updated_at: now, ..asset }
}

/// `asset`, a node of `nodes`, after a move under `parent_id` at time `now`
/// was asked for: hung there, or left as it is where that would make the
/// node its own ancestor.
pub open spec fn rehung(
    nodes: Map<u32, AssetView>,
    asset: AssetView,
    parent_id: Option<u32>,
    now: u64,
) -> AssetView {
    if closes_cycle(nodes, asset.id, parent_id) {
        asset
    } else {
        moved(asset, parent_id, now)
    }
}

/// The nodes after the moves of a batch were carried out one after the other
/// at time `now`, each on a node that `nodes` holds. A move that would make
/// a node its own ancestor, as the nodes stand at its turn, is passed over.
pub open spec fn moves_applied(nodes: Map<u32, AssetView>, moves: Seq<MoveAsset>, now: u64) -> Map<
    u32,
    AssetView,
>
    decreases moves.len(),
{
    if moves.len() == 0 {
        nodes
    } else {
        let earlier = moves_applied(nodes, moves.drop_last(), now);
        let last = moves.last();
        if earlier.contains_key(last.id) {
            earlier.insert(last.id, rehung(earlier, earlier[last.id], last.parent_id, now))
        } else {
            earlier
        }
    }
}

/// Deleting `target` takes `id` away: `id` is `target` itself or one of its
/// transitive descendants among `nodes`.
pub open spec fn falls_with(nodes: Seq<AssetView>, target: u32, id: u32) -> bool {
    target == id || is_nested_child(nodes, target, id)
}

impl AssetsStoreView {
    /// `id` is a node of `owner`.
    pub open spec fn owns(self, owner: Seq<u8>, id: u32) -> bool {
        self.assets.contains_key(id) && self.assets[id].user_id == owner
    }

    /// The ids that the index holds for `owner`, oldest first.
    pub open spec fn ids_of(self, owner: Seq<u8>) -> Seq<u32> {
        if has_entry(self.user_assets, owner) {
            self.user_assets[entry_of(self.user_assets, owner)].1
        } else {
            Seq::empty()
        }
    }

    /// The nodes of `owner`, oldest first.
    pub open spec fn nodes_of(self, owner: Seq<u8>) -> Seq<AssetView> {
        self.ids_of(owner).map_values(|id: u32| self.assets[id])
    }

    /// The nodes that entry `i` of the index lists, oldest first.
    pub open spec fn entry_nodes(self, i: int) -> Seq<AssetView> {
        self.user_assets[i].1.map_values(|id: u32| self.assets[id])
    }

    /// The nodes of the first `n` owners of the index, owner after owner.
    pub open spec fn nodes_upto(self, n: nat) -> Seq<AssetView>
        decreases n,
    {
        if n == 0 {
            Seq::empty()
        } else {
            self.nodes_upto((n - 1) as nat) + self.entry_nodes(n - 1)
        }
    }

    /// All nodes: owner after owner in the order of the index, each owner's
    /// nodes oldest first.
    pub open spec fn all_nodes(self) -> Seq<AssetView> {
        self.nodes_upto(self.user_assets.len())
    }

    /// What a cascading delete of `targets` takes away from `owner`: the
    /// targets and all their transitive descendants among the owner's nodes.
    pub open spec fn doomed(self, owner: Seq<u8>, targets: Seq<u32>) -> Set<u32> {
        Set::new(
            |id: u32|
                exists|k: int|
                    0 <= k < targets.len() && #[trigger] falls_with(self.nodes_of(owner), targets[k], id),
        )
    }

    /// The store's invariant. Every node is filed under its id, which is
    /// between 1 and the last id given out. No node is its own ancestor:
    /// no parent chain, followed upward, comes back to where it started.
    /// The index has one entry per owner, no id twice, and holds exactly
    /// the ids of the nodes, each under the node's owner.
    pub open spec fn valid(self) -> bool {
        &&& self.assets.dom().finite()
        &&& acyclic(self.assets)
        &&& forall|id: u32| #[trigger]
            self.assets.contains_key(id) ==> self.assets[id].id == id && 1 <= id <= self.asset_id
        &&& forall|i: int, j: int|
            0 <= i < j < self.user_assets.len() ==> #[trigger] self.user_assets[i].0
                != #[trigger] self.user_assets[j].0
        &&& forall|i: int|
            0 <= i < self.user_assets.len() ==> (#[trigger] self.user_assets[i]).1.no_duplicates()
        &&& forall|i: int, j: int, id: u32| #[trigger]
            listed(self.user_assets, i, j, id) ==> self.owns(self.user_assets[i].0, id)
        &&& forall|id: u32|
            self.assets.contains_key(id) ==> exists|i: int, j: int| #[trigger]
                listed(self.user_assets, i, j, id)
    }

    /// In a valid store the index and the nodes agree on who owns what.
    pub proof fn lemma_index_in_sync(self, owner: Seq<u8>, id: u32)
        requires
            self.valid(),
        ensures
            self.ids_of(owner).contains(id) <==> self.owns(owner, id),
    {
        let index = self.user_assets;
        if self.ids_of(owner).contains(id) {
            let i = entry_of(index, owner);
            let j = choose|j: int| 0 <= j < index[i].1.len() && index[i].1[j] == id;
            assert(listed(index, i, j, id));
        }
    }

    /// In a valid store each of an owner's nodes is the node filed under
    /// its id.
    pub proof fn lemma_node_of_owner(self, owner: Seq<u8>, i: int)
        requires
            self.valid(),
            0 <= i < self.nodes_of(owner).len(),
        ensures
            self.assets.contains_key(self.nodes_of(owner)[i].id),
            self.assets[self.nodes_of(owner)[i].id] == self.nodes_of(owner)[i],
    {
        let index = self.user_assets;
        let e = entry_of(index, owner);
        assert(listed(index, e, i, index[e].1[i]));
    }

    /// In a valid store a walk down through an owner's folders, read from
    /// its end, is a climb along the parent chain.
    pub proof fn lemma_walk_down_is_climb(self, owner: Seq<u8>, root: u32, folder: u32, depth: nat)
        requires
            self.valid(),
            reached_in(self.nodes_of(owner), root, folder, depth),
        ensures
            climbs(self.assets, folder, root, depth),
        decreases depth,
    {
        if depth > 0 {
            let nodes = self.nodes_of(owner);
            let (i, parent) = choose|i: int, parent: u32| #[trigger]
                folder_at(nodes, i, parent, folder) && reached_in(
                    nodes,
                    root,
                    parent,
                    (depth - 1) as nat,
                );
            self.lemma_node_of_owner(owner, i);
            self.lemma_walk_down_is_climb(owner, root, parent, (depth - 1) as nat);
            assert(parent_in(self.assets, folder) == Some(parent));
        }
    }

    /// In a valid store the tree of every owner is acyclic: no node is
    /// among its own transitive descendants.
    pub proof fn lemma_no_own_descendant(self, owner: Seq<u8>, id: u32)
        requires
            self.valid(),
        ensures
            !is_nested_child(self.nodes_of(owner), id, id),
    {
        let nodes = self.nodes_of(owner);
        if is_nested_child(nodes, id, id) {
            let (i, parent) = choose|i: int, parent: u32| #[trigger]
                child_at(nodes, i, parent) && nodes[i].id == id && reached(nodes, id, parent);
            let depth = choose|depth: nat| reached_in(nodes, id, parent, depth);
            self.lemma_node_of_owner(owner, i);
            self.lemma_walk_down_is_climb(owner, id, parent, depth);
            assert(parent_in(self.assets, id) == Some(parent));
            assert(climbs(self.assets, id, id, depth + 1));
        }
    }

    /// The nodes of the first `n` entries of the index are nodes of the
    /// store, each listed by one of these entries and none with the id of
    /// another; and every node that these entries list is among them.
    pub proof fn lemma_nodes_upto(self, n: nat)
        requires
            self.valid(),
            n <= self.user_assets.len(),
        ensures
            forall|k: int|
                0 <= k < self.nodes_upto(n).len() ==> self.assets.contains_key(
                    (#[trigger] self.nodes_upto(n)[k]).id,
                ) && self.assets[self.nodes_upto(n)[k].id] == self.nodes_upto(n)[k],
            forall|i: int, j: int, id: u32|
                i < n && #[trigger] listed(self.user_assets, i, j, id) ==> self.nodes_upto(n).contains(
                    self.assets[id],
                ),
            forall|k: int|
                0 <= k < self.nodes_upto(n).len() ==> exists|i: int, j: int|
                    i < n && #[trigger] listed(self.user_assets, i, j, (#[trigger] self.nodes_upto(n)[k]).id),
            distinct_ids(self.nodes_upto(n)),
        decreases n,
    {
        if n > 0 {
            self.lemma_nodes_upto((n - 1) as nat);
            let front = self.nodes_upto((n - 1) as nat);
            let all = self.nodes_upto(n);
            let index = self.user_assets;
            assert forall|k: int| 0 <= k < all.len() implies exists|i: int, j: int|
                i < n && #[trigger] listed(index, i, j, (#[trigger] all[k]).id) by {
                if k >= front.len() {
                    let j = k - front.len();
                    assert(listed(index, n - 1, j, index[n - 1].1[j]));
                }
            }
            assert forall|a: int, b: int| 0 <= a < b < all.len() implies (#[trigger] all[a]).id != (
            #[trigger] all[b]).id by {
                if b >= front.len() {
                    let jb = b - front.len();
                    assert(listed(index, n - 1, jb, index[n - 1].1[jb]));
                    if a >= front.len() {
                        let ja = a - front.len();
                        assert(listed(index, n - 1, ja, index[n - 1].1[ja]));
                    }
                }
            }
            assert forall|i: int, j: int, id: u32|
                i < n && #[trigger] listed(self.user_assets, i, j, id) implies all.contains(
                self.assets[id],
            ) by {
                if i < n - 1 {
                    let k = choose|k: int| 0 <= k < front.len() && front[k] == self.assets[id];
                    assert(all[k] == self.assets[id]);
                } else {
                    assert(all[front.len() + j] == self.assets[id]);
                }
            }
        }
    }

    /// In a valid store the list of all nodes holds every node once, and
    /// nothing else.
    pub proof fn lemma_all_nodes(self)
        requires
            self.valid(),
        ensures
            forall|k: int|
                0 <= k < self.all_nodes().len() ==> self.assets.contains_key(
                    (#[trigger] self.all_nodes()[k]).id,
                ) && self.assets[self.all_nodes()[k].id] == self.all_nodes()[k],
            forall|id: u32| #[trigger]
                self.assets.contains_key(id) ==> self.all_nodes().contains(self.assets[id]),
            distinct_ids(self.all_nodes()),
            nodes_by_id(self.all_nodes()) == self.assets,
    {
        self.lemma_nodes_upto(self.user_assets.len());
        let all = self.all_nodes();
        assert forall|id: u32| #[trigger]
            nodes_by_id(all).contains_key(id) <==> self.assets.contains_key(id) by {
            if self.assets.contains_key(id) {
                let k = choose|k: int| 0 <= k < all.len() && all[k] == self.assets[id];
                assert(holds_id(all, k, id));
            }
        }
    }

    /// Deleting a single node takes away that node and its transitive
    /// descendants among the owner's nodes, and nothing else.
    pub proof fn lemma_doomed_by_one(self, owner: Seq<u8>, target: u32)
        ensures
            self.doomed(owner, seq![target]) == nested_children(self.nodes_of(owner), target).insert(
                target,
            ),
    {
        let targets = seq![target];
        let nodes = self.nodes_of(owner);
        assert forall|id: u32| self.doomed(owner, targets).contains(id) <==> nested_children(
            nodes,
            target,
        ).insert(target).contains(id) by {
            if falls_with(nodes, target, id) {
                assert(falls_with(nodes, targets[0], id));
            }
        }
    }
}

/// The node that move `k` of a batch names, as it stands right after that
/// move: hung where the move asks, or left as it stood at the move's turn
/// where that would make it its own ancestor.
pub open spec fn stood_after(nodes: Map<u32, AssetView>, moves: Seq<MoveAsset>, now: u64, k: int) -> AssetView {
    let earlier = moves_applied(nodes, moves.subrange(0, k), now);
    rehung(earlier, earlier[moves[k].id], moves[k].parent_id, now)
}

/// A batch of moves leaves every node in place, and changes nothing of a
/// node but its parent and its time of change.
pub proof fn lemma_moves_keep_rest(nodes: Map<u32, AssetView>, moves: Seq<MoveAsset>, now: u64)
    ensures
        moves_applied(nodes, moves, now).dom() == nodes.dom(),
        forall|id: u32|
            nodes.contains_key(id) ==> moved(#[trigger] moves_applied(nodes, moves, now)[id], None, 0)
                == moved(nodes[id], None, 0),
    decreases moves.len(),
{
    if moves.len() > 0 {
        lemma_moves_keep_rest(nodes, moves.drop_last(), now);
    }
}

/// A node that no move of the batch names keeps its value.
pub proof fn lemma_moves_skip_unnamed(
    nodes: Map<u32, AssetView>,
    moves: Seq<MoveAsset>,
    now: u64,
    id: u32,
)
    requires
        forall|k: int| 0 <= k < moves.len() ==> (#[trigger] moves[k]).id != id,
    ensures
        moves_applied(nodes, moves, now)[id] == nodes[id],
    decreases moves.len(),
{
    if moves.len() > 0 {
        let front = moves.drop_last();
        lemma_moves_skip_unnamed(nodes, front, now, id);
    }
}

/// After a batch of moves, a node stands as the last move naming it left
/// it. Unless that move would have made the node its own ancestor, the node
/// hangs under the parent the move asked for, and `now` is its time of
/// change: later than before whenever `now` is later than the node's last
/// change. Otherwise the move left the node as it stood at its turn.
pub proof fn lemma_moves_last_wins(
    nodes: Map<u32, AssetView>,
    moves: Seq<MoveAsset>,
    now: u64,
    k: int,
)
    requires
        0 <= k < moves.len(),
        nodes.contains_key(moves[k].id),
        forall|l: int| k < l < moves.len() ==> (#[trigger] moves[l]).id != moves[k].id,
    ensures
        ({
            let id = moves[k].id;
            let earlier = moves_applied(nodes, moves.subrange(0, k), now);
            let after = moves_applied(nodes, moves, now);
            &&& after[id] == stood_after(nodes, moves, now, k)
            &&& closes_cycle(earlier, earlier[id].id, moves[k].parent_id) ==> after[id] == earlier[id]
            &&& !closes_cycle(earlier, earlier[id].id, moves[k].parent_id) ==> {
                &&& after[id] == moved(nodes[id], moves[k].parent_id, now)
                &&& after[id].parent_id == moves[k].parent_id
                &&& after[id].updated_at == now
                &&& now > nodes[id].updated_at ==> after[id].updated_at > nodes[id].updated_at
            }
        }),
    decreases moves.len(),
{
    let front = moves.drop_last();
    lemma_moves_keep_rest(nodes, front, now);
    if k < moves.len() - 1 {
        assert(front.subrange(0, k) =~= moves.subrange(0, k));
        assert(front[k] == moves[k]);
        assert forall|l: int| k < l < front.len() implies (#[trigger] front[l]).id != front[k].id by {
            assert(moves[l].id != moves[k].id);
        }
        lemma_moves_last_wins(nodes, front, now, k);
        assert(moves[moves.len() - 1].id != moves[k].id);
    } else {
        assert(front =~= moves.subrange(0, k));
    }
}

/// The whole state of a hierarchy store as plain values, as it is written
/// out before a restart and read back after it.
#[derive(Debug, PartialEq, Eq)]
pub struct AssetsSnapshot {
    /// The id given out last.
    pub asset_id: u32,
    /// All nodes.
    pub assets: Vec<Asset>,
    /// The secondary index: each owner with the ids of the owner's nodes.
    pub user_assets: Vec<(Principal, Vec<u32>)>,
}

/// Entry `k` of `nodes` is the node `id`.
pub open spec fn holds_id(nodes: Seq<AssetView>, k: int, id: u32) -> bool {
    0 <= k < nodes.len() && nodes[k].id == id
}

/// No two entries of `nodes` have the same id.
pub open spec fn distinct_ids(nodes: Seq<AssetView>) -> bool {
    forall|a: int, b: int|
        0 <= a < b < nodes.len() ==> (#[trigger] nodes[a]).id != (#[trigger] nodes[b]).id
}

/// The nodes of a list, each under its id.
pub open spec fn nodes_by_id(nodes: Seq<AssetView>) -> Map<u32, AssetView> {
    Map::new(
        |id: u32| exists|k: int| holds_id(nodes, k, id),
        |id: u32| nodes[choose|k: int| holds_id(nodes, k, id)],
    )
}

impl AssetsSnapshot {
    /// The nodes of the snapshot.
    pub open spec fn nodes(&self) -> Seq<AssetView> {
        assets_view(self.assets@)
    }

    /// The index of the snapshot.
    pub open spec fn index(&self) -> Seq<(Seq<u8>, Seq<u32>)> {
        self.user_assets@.map_values(|e: (Principal, Vec<u32>)| (e.0@, e.1@))
    }

    /// The store that the snapshot describes.
    pub open spec fn state(&self) -> AssetsStoreView {
        AssetsStoreView {
            asset_id: self.asset_id,
            assets: nodes_by_id(self.nodes()),
            user_assets: self.index(),
        }
    }

    /// The snapshot describes a store that can exist: no node id stands
    /// twice, and counter, nodes and index meet the store's invariant.
    pub open spec fn sound(&self) -> bool {
        distinct_ids(self.nodes()) && self.state().valid()
    }
}

} // verus!
