use vstd::prelude::*;
use crate::types::asset::AssetView;

verus! {

/// The parent that the node `id` names, if `nodes` holds such a node and it
/// names one.
pub open spec fn parent_in(nodes: Map<u32, AssetView>, id: u32) -> Option<u32> {
    if nodes.contains_key(id) {
        nodes[id].parent_id
    } else {
        None
    }
}

/// Following the parent links upward from `from` for exactly `steps` links
/// arrives at `to`. The links of the nodes of all owners are followed, and
/// the last id arrived at need not be a node.
pub open spec fn climbs(nodes: Map<u32, AssetView>, from: u32, to: u32, steps: nat) -> bool
    decreases steps,
{
    if steps == 0 {
        from == to
    } else {
        match parent_in(nodes, from) {
            Some(parent) => climbs(nodes, parent, to, (steps - 1) as nat),
            None => false,
        }
    }
}

/// `top` is `from` itself or stands on the parent chain of `from`.
pub open spec fn hangs_below(nodes: Map<u32, AssetView>, from: u32, top: u32) -> bool {
    exists|steps: nat| climbs(nodes, from, top, steps)
}

/// No parent chain, followed upward, comes back to the node it started at.
pub open spec fn acyclic(nodes: Map<u32, AssetView>) -> bool {
    forall|id: u32, steps: nat| steps >= 1 ==> !#[trigger] climbs(nodes, id, id, steps)
}

/// Hanging the node `id` under `parent` would make it its own ancestor:
/// `parent` is `id` itself, or the parent chain of `parent`, followed
/// upward, reaches `id`.
pub open spec fn closes_cycle(nodes: Map<u32, AssetView>, id: u32, parent: Option<u32>) -> bool {
    parent matches Some(p) && (p == id || hangs_below(nodes, p, id))
}

/// The parent that the node `id` gets when `wanted` is asked for: `wanted`,
/// unless that would make the node its own ancestor, and `otherwise` then.
pub open spec fn free_parent(
    nodes: Map<u32, AssetView>,
    id: u32,
    wanted: Option<u32>,
    otherwise: Option<u32>,
) -> Option<u32> {
    if closes_cycle(nodes, id, wanted) {
        otherwise
    } else {
        wanted
    }
}

/// Every node of `sub` is a node of `sup` with the same parent.
pub open spec fn links_within(sub: Map<u32, AssetView>, sup: Map<u32, AssetView>) -> bool {
    forall|id: u32| #[trigger]
        sub.contains_key(id) ==> sup.contains_key(id) && sup[id].parent_id == sub[id].parent_id
}

/// Two climbs, one after the other, are one climb.
pub proof fn lemma_climb_join(nodes: Map<u32, AssetView>, x: u32, y: u32, z: u32, s: nat, t: nat)
    requires
        climbs(nodes, x, y, s),
        climbs(nodes, y, z, t),
    ensures
        climbs(nodes, x, z, s + t),
    decreases s,
{
    if s > 0 {
        let parent = parent_in(nodes, x)->Some_0;
        lemma_climb_join(nodes, parent, y, z, (s - 1) as nat, t);
    }
}

/// A node has one parent chain: where a climb from `x` passes `u` after `j`
/// links and ends at `t` after `k`, the rest of it is a climb from `u`.
pub proof fn lemma_climb_split(nodes: Map<u32, AssetView>, x: u32, t: u32, k: nat, u: u32, j: nat)
    requires
        climbs(nodes, x, t, k),
        climbs(nodes, x, u, j),
        j <= k,
    ensures
        climbs(nodes, u, t, (k - j) as nat),
    decreases j,
{
    if j > 0 {
        let parent = parent_in(nodes, x)->Some_0;
        lemma_climb_split(nodes, parent, t, (k - 1) as nat, u, (j - 1) as nat);
    }
}

/// A climb among fewer nodes is a climb among more.
pub proof fn lemma_climb_within(
    sub: Map<u32, AssetView>,
    sup: Map<u32, AssetView>,
    x: u32,
    t: u32,
    k: nat,
)
    requires
        links_within(sub, sup),
        climbs(sub, x, t, k),
    ensures
        climbs(sup, x, t, k),
    decreases k,
{
    if k > 0 {
        assert(sub.contains_key(x));
        let parent = parent_in(sub, x)->Some_0;
        lemma_climb_within(sub, sup, parent, t, (k - 1) as nat);
    }
}

/// Taking nodes away closes no cycle.
pub proof fn lemma_fewer_nodes_acyclic(sub: Map<u32, AssetView>, sup: Map<u32, AssetView>)
    requires
        links_within(sub, sup),
        acyclic(sup),
    ensures
        acyclic(sub),
{
    assert forall|id: u32, steps: nat| steps >= 1 implies !#[trigger] climbs(sub, id, id, steps) by {
        if climbs(sub, id, id, steps) {
            lemma_climb_within(sub, sup, id, id, steps);
        }
    }
}

/// Among acyclic nodes the parent that a node has does not hang below the
/// node.
pub proof fn lemma_own_parent_is_free(nodes: Map<u32, AssetView>, id: u32)
    requires
        acyclic(nodes),
    ensures
        !closes_cycle(nodes, id, parent_in(nodes, id)),
{
    if closes_cycle(nodes, id, parent_in(nodes, id)) {
        let p = parent_in(nodes, id)->Some_0;
        assert(climbs(nodes, id, id, 0));
        let steps = choose|steps: nat| climbs(nodes, p, id, steps);
        assert(climbs(nodes, id, id, steps + 1));
    }
}

/// A climb that starts at an id that does not hang below `n` does not use
/// the link of `n`, and stands as it is whatever `n` is replaced with.
proof fn lemma_climb_beside(
    nodes: Map<u32, AssetView>,
    n: u32,
    a: AssetView,
    x: u32,
    t: u32,
    k: nat,
)
    requires
        !hangs_below(nodes, x, n),
        climbs(nodes.insert(n, a), x, t, k),
    ensures
        climbs(nodes, x, t, k),
    decreases k,
{
    if k > 0 {
        assert(climbs(nodes, x, x, 0));
        let parent = parent_in(nodes.insert(n, a), x)->Some_0;
        assert(parent_in(nodes, x) == Some(parent));
        if hangs_below(nodes, parent, n) {
            let s = choose|s: nat| climbs(nodes, parent, n, s);
            assert(climbs(nodes, x, n, s + 1));
        }
        lemma_climb_beside(nodes, n, a, parent, t, (k - 1) as nat);
    }
}

/// A climb after `n` was replaced either stood before, or passes `n` before
/// its end.
proof fn lemma_climb_old_or_through(
    nodes: Map<u32, AssetView>,
    n: u32,
    a: AssetView,
    x: u32,
    t: u32,
    k: nat,
) -> (j: nat)
    requires
        climbs(nodes.insert(n, a), x, t, k),
    ensures
        climbs(nodes, x, t, k) || (j < k && climbs(nodes.insert(n, a), x, n, j)),
    decreases k,
{
    if k == 0 {
        0
    } else if x == n {
        0
    } else {
        let parent = parent_in(nodes.insert(n, a), x)->Some_0;
        assert(parent_in(nodes, x) == Some(parent));
        let j = lemma_climb_old_or_through(nodes, n, a, parent, t, (k - 1) as nat);
        j + 1
    }
}

/// Putting a node in place, new or in exchange for the one with its id,
/// closes no cycle as long as the parent it names does not hang below it.
pub proof fn lemma_rehang_acyclic(nodes: Map<u32, AssetView>, n: u32, a: AssetView)
    requires
        acyclic(nodes),
        !closes_cycle(nodes, n, a.parent_id),
    ensures
        acyclic(nodes.insert(n, a)),
{
    let after = nodes.insert(n, a);
    assert forall|id: u32, steps: nat| steps >= 1 implies !#[trigger] climbs(after, id, id, steps) by {
        if climbs(after, id, id, steps) {
            let j = lemma_climb_old_or_through(nodes, n, a, id, id, steps);
            if !climbs(nodes, id, id, steps) {
                lemma_climb_split(after, id, id, steps, n, j);
                let rest = (steps - j) as nat;
                assert(climbs(after, n, id, rest));
                let p = a.parent_id->Some_0;
                assert(parent_in(after, n) == a.parent_id);
                assert(climbs(after, p, id, (rest - 1) as nat));
                lemma_climb_join(after, p, id, n, (rest - 1) as nat, j);
                assert(climbs(after, p, n, (steps - 1) as nat));
                lemma_climb_beside(nodes, n, a, p, n, (steps - 1) as nat);
            }
        }
    }
}

} // verus!
