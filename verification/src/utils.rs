use std::collections::HashSet;
use vstd::prelude::*;
use vstd::set_lib::lemma_len_subset;
use vstd::std_specs::hash::group_hash_axioms;
use crate::principal::{anonymous_bytes, Principal};
use crate::types::api_error::{unauthorized, ApiError};
use crate::types::asset::{assets_view, Asset, AssetType, AssetView};
use crate::types::user::principals_view;

verus! {

broadcast use group_hash_axioms;

/// Entry `i` of `nodes` hangs directly under `parent`.
pub open spec fn child_at(nodes: Seq<AssetView>, i: int, parent: u32) -> bool {
    0 <= i < nodes.len() && nodes[i].parent_id == Some(parent)
}

/// Entry `i` of `nodes` is the folder `child`, and hangs directly under
/// `parent`.
pub open spec fn folder_at(nodes: Seq<AssetView>, i: int, parent: u32, child: u32) -> bool {
    child_at(nodes, i, parent) && nodes[i].id == child && nodes[i].asset_type
        == AssetType::Folder
}

/// `folder` is reached from `root` by walking down through `depth` folders:
/// it is `root` itself when `depth` is 0, and otherwise a folder directly
/// under an id that is reached in `depth - 1` steps.
pub open spec fn reached_in(nodes: Seq<AssetView>, root: u32, folder: u32, depth: nat) -> bool
    decreases depth,
{
    if depth == 0 {
        folder == root
    } else {
        exists|i: int, parent: u32| #[trigger]
            folder_at(nodes, i, parent, folder) && reached_in(
                nodes,
                root,
                parent,
                (depth - 1) as nat,
            )
    }
}

/// `folder` is `root` or a folder somewhere below it, with only folders on
/// the way down. These are the ids whose children are collected.
pub open spec fn reached(nodes: Seq<AssetView>, root: u32, folder: u32) -> bool {
    exists|depth: nat| reached_in(nodes, root, folder, depth)
}

/// `id` is a transitive descendant of `root`: some entry with this id hangs
/// directly under `root`, or directly under a folder that is itself a
/// descendant of `root` through folders only. A file's children are not
/// descendants of what the file hangs under.
pub open spec fn is_nested_child(nodes: Seq<AssetView>, root: u32, id: u32) -> bool {
    exists|i: int, parent: u32| #[trigger]
        child_at(nodes, i, parent) && nodes[i].id == id && reached(nodes, root, parent)
}

/// The transitive descendants of `root`, as a set of ids.
pub open spec fn nested_children(nodes: Seq<AssetView>, root: u32) -> Set<u32> {
    Set::new(|id: u32| is_nested_child(nodes, root, id))
}

/// A walk down from a folder directly under `root` is a walk down from
/// `root` that is one step longer.
proof fn lemma_reached_from_child(
    nodes: Seq<AssetView>,
    root: u32,
    i: int,
    child: u32,
    folder: u32,
    depth: nat,
)
    requires
        folder_at(nodes, i, root, child),
        reached_in(nodes, child, folder, depth),
    ensures
        reached_in(nodes, root, folder, depth + 1),
    decreases depth,
{
    if depth == 0 {
        assert(reached_in(nodes, root, root, 0));
    } else {
        let (j, parent) = choose|j: int, parent: u32| #[trigger]
            folder_at(nodes, j, parent, folder) && reached_in(
                nodes,
                child,
                parent,
                (depth - 1) as nat,
            );
        lemma_reached_from_child(nodes, root, i, child, parent, (depth - 1) as nat);
    }
}

/// A walk down from `root` of at least one step starts at a folder directly
/// under `root`.
proof fn lemma_reached_through_child(nodes: Seq<AssetView>, root: u32, folder: u32, depth: nat) -> (first: (
    int,
    u32,
))
    requires
        depth >= 1,
        reached_in(nodes, root, folder, depth),
    ensures
        folder_at(nodes, first.0, root, first.1),
        reached_in(nodes, first.1, folder, (depth - 1) as nat),
    decreases depth,
{
    let (j, parent) = choose|j: int, parent: u32| #[trigger]
        folder_at(nodes, j, parent, folder) && reached_in(nodes, root, parent, (depth - 1) as nat);
    if depth == 1 {
        (j, folder)
    } else {
        lemma_reached_through_child(nodes, root, parent, (depth - 1) as nat)
    }
}

/// The descendants of `root` are what hangs directly under `root`, together
/// with the descendants of every folder that hangs directly under `root`.
pub proof fn lemma_nested_children_unfold(nodes: Seq<AssetView>, root: u32, id: u32)
    ensures
        is_nested_child(nodes, root, id) <==> exists|i: int| #[trigger]
            child_at(nodes, i, root) && (nodes[i].id == id || (nodes[i].asset_type
                == AssetType::Folder && is_nested_child(nodes, nodes[i].id, id))),
{
    if is_nested_child(nodes, root, id) {
        let (i, parent) = choose|i: int, parent: u32| #[trigger]
            child_at(nodes, i, parent) && nodes[i].id == id && reached(nodes, root, parent);
        let depth = choose|depth: nat| reached_in(nodes, root, parent, depth);
        if depth > 0 {
            lemma_reached_through_child(nodes, root, parent, depth);
        }
    }
    if exists|i: int| #[trigger]
        child_at(nodes, i, root) && (nodes[i].id == id || (nodes[i].asset_type == AssetType::Folder
            && is_nested_child(nodes, nodes[i].id, id))) {
        let i = choose|i: int| #[trigger]
            child_at(nodes, i, root) && (nodes[i].id == id || (nodes[i].asset_type
                == AssetType::Folder && is_nested_child(nodes, nodes[i].id, id)));
        if nodes[i].id == id {
            assert(reached_in(nodes, root, root, 0));
        } else {
            let child = nodes[i].id;
            let (j, parent) = choose|j: int, parent: u32| #[trigger]
                child_at(nodes, j, parent) && nodes[j].id == id && reached(nodes, child, parent);
            let depth = choose|depth: nat| reached_in(nodes, child, parent, depth);
            lemma_reached_from_child(nodes, root, i, child, parent, depth);
        }
    }
}

/// A list and a set that hold the same ids still do after one more id was
/// appended to the list and put into the set.
pub proof fn lemma_push_keeps_agreement(list: Seq<u32>, set: Set<u32>, x: u32)
    requires
        forall|id: u32| set.contains(id) <==> list.contains(id),
    ensures
        forall|id: u32| set.insert(x).contains(id) <==> list.push(x).contains(id),
{
    let longer = list.push(x);
    assert forall|id: u32| set.insert(x).contains(id) <==> longer.contains(id) by {
        if list.contains(id) {
            let j = choose|j: int| 0 <= j < list.len() && list[j] == id;
            assert(longer[j] == id);
        }
        if id == x {
            assert(longer[list.len() as int] == id);
        }
        if longer.contains(id) && id != x {
            let j = choose|j: int| 0 <= j < longer.len() && longer[j] == id;
            assert(list[j] == id);
        }
    }
}

/// Entry `i` has been collected: its id is in `seen`, and in `queued` too if
/// it is a folder.
spec fn handled(nodes: Seq<AssetView>, i: int, seen: Set<u32>, queued: Set<u32>) -> bool {
    seen.contains(nodes[i].id) && (nodes[i].asset_type == AssetType::Folder ==> queued.contains(
        nodes[i].id,
    ))
}

/// A list without repetition whose members are `root` or ids of `nodes` is
/// at most one longer than `nodes`.
proof fn lemma_queue_bounded(open: Seq<u32>, nodes: Seq<AssetView>, root: u32)
    requires
        open.no_duplicates(),
        forall|k: int|
            0 <= k < open.len() ==> open[k] == root || exists|i: int|
                0 <= i < nodes.len() && #[trigger] nodes[i].id == open[k],
    ensures
        open.len() <= nodes.len() + 1,
{
    let ids = Seq::new(nodes.len(), |i: int| nodes[i].id);
    ids.lemma_cardinality_of_set();
    let bound = ids.to_set().insert(root);
    assert forall|x: u32| open.to_set().contains(x) implies bound.contains(x) by {
        let k = choose|k: int| 0 <= k < open.len() && open[k] == x;
        if open[k] != root {
            let i = choose|i: int| 0 <= i < nodes.len() && #[trigger] nodes[i].id == open[k];
            assert(ids[i] == x);
        }
    }
    lemma_len_subset(open.to_set(), bound);
    open.unique_seq_to_set();
}

/// Once every queued folder has been expanded, every folder that is reached
/// from `root` is among them.
proof fn lemma_reached_is_done(
    nodes: Seq<AssetView>,
    root: u32,
    seen: Set<u32>,
    done: Set<u32>,
    folder: u32,
    depth: nat,
)
    requires
        done.contains(root),
        forall|p: u32, i: int|
            done.contains(p) && #[trigger] child_at(nodes, i, p) ==> handled(nodes, i, seen, done),
        reached_in(nodes, root, folder, depth),
    ensures
        done.contains(folder),
    decreases depth,
{
    if depth > 0 {
        let (i, parent) = choose|i: int, parent: u32| #[trigger]
            folder_at(nodes, i, parent, folder) && reached_in(
                nodes,
                root,
                parent,
                (depth - 1) as nat,
            );
        lemma_reached_is_done(nodes, root, seen, done, parent, (depth - 1) as nat);
    }
}

/// Collects the ids of all transitive descendants of `asset_id` among
/// `assets`: what hangs directly under it, and, for each folder found, what
/// hangs under that folder, and so on. Each id comes out once; the order is
/// that of discovery, level by level. Terminates on every input, also where
/// the parent links form a cycle.
pub fn get_nested_child_assets(assets: &Vec<Asset>, asset_id: &u32) -> (child_assets: Vec<u32>)
    ensures
        child_assets@.no_duplicates(),
        child_assets@.to_set() == nested_children(assets_view(assets@), *asset_id),
{
    let ghost nodes = assets_view(assets@);
    let ghost root = *asset_id;
    let mut found: Vec<u32> = Vec::new();
    let mut seen: HashSet<u32> = HashSet::new();
    let mut open: Vec<u32> = Vec::new();
    let mut queued: HashSet<u32> = HashSet::new();
    open.push(*asset_id);
    queued.insert(*asset_id);
    let ghost mut done: Set<u32> = Set::empty();
    let mut next: usize = 0;
    proof {
        assert(reached_in(nodes, root, root, 0));
    }
    while next < open.len()
        invariant
            nodes == assets_view(assets@),
            root == *asset_id,
            next <= open@.len() <= assets@.len() + 1,
            open@.len() >= 1,
            open@[0] == root,
            found@.no_duplicates(),
            open@.no_duplicates(),
            forall|x: u32| seen@.contains(x) <==> found@.contains(x),
            forall|x: u32| queued@.contains(x) <==> open@.contains(x),
            forall|k: int|
                0 <= k < open@.len() ==> open@[k] == root || exists|i: int|
                    0 <= i < nodes.len() && #[trigger] nodes[i].id == open@[k],
            forall|k: int| 0 <= k < open@.len() ==> reached(nodes, root, #[trigger] open@[k]),
            forall|j: int|
                0 <= j < found@.len() ==> is_nested_child(nodes, root, #[trigger] found@[j]),
            forall|k: int| 0 <= k < open@.len() ==> (k < next <==> done.contains(#[trigger] open@[k])),
            forall|p: u32| done.contains(p) ==> queued@.contains(p),
            forall|p: u32, i: int|
                done.contains(p) && #[trigger] child_at(nodes, i, p) ==> handled(
                    nodes,
                    i,
                    seen@,
                    queued@,
                ),
        decreases assets@.len() + 1 - next,
    {
        let cur = open[next];
        let mut i: usize = 0;
        while i < assets.len()
            invariant
                nodes == assets_view(assets@),
                root == *asset_id,
                i <= assets@.len(),
                next < open@.len() <= assets@.len() + 1,
                open@[0] == root,
                cur == open@[next as int],
                found@.no_duplicates(),
                open@.no_duplicates(),
                forall|x: u32| seen@.contains(x) <==> found@.contains(x),
                forall|x: u32| queued@.contains(x) <==> open@.contains(x),
                forall|k: int|
                    0 <= k < open@.len() ==> open@[k] == root || exists|i: int|
                        0 <= i < nodes.len() && #[trigger] nodes[i].id == open@[k],
                forall|k: int| 0 <= k < open@.len() ==> reached(nodes, root, #[trigger] open@[k]),
                forall|j: int|
                    0 <= j < found@.len() ==> is_nested_child(nodes, root, #[trigger] found@[j]),
                forall|k: int|
                    0 <= k < open@.len() ==> (k < next <==> done.contains(#[trigger] open@[k])),
                forall|p: u32| done.contains(p) ==> queued@.contains(p),
                forall|p: u32, i: int|
                    done.contains(p) && #[trigger] child_at(nodes, i, p) ==> handled(
                        nodes,
                        i,
                        seen@,
                        queued@,
                    ),
                forall|j: int|
                    0 <= j < i && #[trigger] child_at(nodes, j, cur) ==> handled(
                        nodes,
                        j,
                        seen@,
                        queued@,
                    ),
            decreases assets@.len() - i,
        {
            let asset = &assets[i];
            let hangs_here = match asset.parent_id {
                Some(parent) => parent == cur,
                None => false,
            };
            assert(hangs_here == child_at(nodes, i as int, cur));
            if hangs_here {
                let ghost old_found = found@;
                let ghost old_seen = seen@;
                let ghost old_open = open@;
                let ghost old_queued = queued@;
                if seen.insert(asset.id) {
                    found.push(asset.id);
                    proof {
                        lemma_push_keeps_agreement(old_found, old_seen, asset.id);
                    }
                }
                let is_folder = match asset.asset_type {
                    AssetType::Folder => true,
                    AssetType::File => false,
                };
                if is_folder {
                    if queued.insert(asset.id) {
                        open.push(asset.id);
                        proof {
                            lemma_push_keeps_agreement(old_open, old_queued, asset.id);
                            let depth = choose|depth: nat| reached_in(nodes, root, cur, depth);
                            assert(folder_at(nodes, i as int, cur, asset.id));
                            assert(reached_in(nodes, root, asset.id, depth + 1));
                            lemma_queue_bounded(open@, nodes, root);
                        }
                    }
                }
            }
            i += 1;
        }
        proof {
            done = done.insert(cur);
        }
        next += 1;
    }
    proof {
        assert forall|id: u32| found@.to_set().contains(id) <==> is_nested_child(
            nodes,
            root,
            id,
        ) by {
            if is_nested_child(nodes, root, id) {
                let (i, parent) = choose|i: int, parent: u32| #[trigger]
                    child_at(nodes, i, parent) && nodes[i].id == id && reached(
                        nodes,
                        root,
                        parent,
                    );
                let depth = choose|depth: nat| reached_in(nodes, root, parent, depth);
                lemma_reached_is_done(nodes, root, seen@, done, parent, depth);
            }
        }
    }
    found
}

/// Lets every identity pass but the anonymous one.
pub fn validate_anonymous(principal: &Principal) -> (r: Result<Principal, ApiError>)
    ensures
        r is Err <==> principal@ == anonymous_bytes(),
        match r {
            Ok(validated) => validated@ == principal@,
            Err(e) => e@ == unauthorized(),
        },
{
    let anon_principal = Principal::anonymous();
    if principal.same(&anon_principal) {
        return Err(ApiError::unauthorized());
    }
    Ok(principal.clone())
}

/// Lets an identity pass exactly when `whitelist`, the list of
/// administrators, holds it.
pub fn validate_admin(principal: &Principal, whitelist: &Vec<Principal>) -> (r: Result<
    Principal,
    ApiError,
>)
    ensures
        r is Ok <==> principals_view(whitelist@).contains(principal@),
        match r {
            Ok(validated) => validated@ == principal@,
            Err(e) => e@ == unauthorized(),
        },
{
    let ghost admins = principals_view(whitelist@);
    let mut i: usize = 0;
    while i < whitelist.len()
        invariant
            admins == principals_view(whitelist@),
            i <= whitelist@.len(),
            forall|k: int| 0 <= k < i ==> #[trigger] admins[k] != principal@,
        decreases whitelist@.len() - i,
    {
        if whitelist[i].same(principal) {
            assert(admins[i as int] == principal@);
            return Ok(principal.clone());
        }
        i += 1;
    }
    Err(ApiError::unauthorized())
}

/// Lets an identity pass when it is not anonymous and `whitelist` holds it.
/// The anonymous identity is turned away before the list is looked at.
pub fn validate_anonymous_and_admin(principal: &Principal, whitelist: &Vec<Principal>) -> (r: Result<
    Principal,
    ApiError,
>)
    ensures
        r is Ok <==> principal@ != anonymous_bytes() && principals_view(whitelist@).contains(
            principal@,
        ),
        match r {
            Ok(validated) => validated@ == principal@,
            Err(e) => e@ == unauthorized(),
        },
{
    match validate_anonymous(principal) {
        Ok(_) => validate_admin(principal, whitelist),
        Err(e) => Err(e),
    }
}

/// Size in bytes of one page of linear memory.
pub const WASM_PAGE_SIZE: u64 = 65536;

/// The heap size in bytes of a unit whose linear memory holds `pages` pages.
pub fn get_heap_memory_size(pages: u32) -> (bytes: u64)
    ensures
        bytes == pages * WASM_PAGE_SIZE,
{
    let pages: u64 = pages as u64;
    pages * WASM_PAGE_SIZE
}

} // verus!
