use std::collections::HashMap;
use vstd::pervasive::unreached;
use vstd::prelude::*;
use vstd::std_specs::hash::group_hash_axioms;
use vstd::std_specs::iter::IteratorSpec;
use crate::principal::{anonymous_bytes, Principal};
use crate::types::api_error::{chunks_not_found, ApiError};
use crate::types::chunk::{Chunk, ChunkStoreState, ChunkView, PostChunk};

verus! {

broadcast use group_hash_axioms;

/// The bytes of one chunk, with the identity they were stored for.
struct StoredChunk {
    owner: Principal,
    blob: Vec<u8>,
}

/// The chunk store of one storage unit: the bytes of every chunk, found by
/// the chunk's id together with its owner. One counter numbers the chunks of
/// all owners.
pub struct ChunksStore {
    /// The tenant this unit was set up for.
    canister_owner: Principal,
    /// The chunk id given out last.
    chunk_id: u32,
    /// The stored chunks, by id.
    chunks: HashMap<u32, StoredChunk>,
}

/// The mathematical value of a [`ChunksStore`].
pub struct ChunksStoreView {
    /// The tenant this unit was set up for.
    pub canister_owner: Seq<u8>,
    /// The chunk id given out last.
    pub chunk_id: u32,
    /// The bytes of each chunk, by the pair of chunk id and owner.
    pub chunks: Map<(u32, Seq<u8>), Seq<u8>>,
}

/// What `delete_chunks` reports for `ids`: each id that names a chunk of
/// `owner` in `chunks`, once, in the order of its first mention.
pub open spec fn deleted(chunks: Map<(u32, Seq<u8>), Seq<u8>>, owner: Seq<u8>, ids: Seq<u32>) -> Seq<
    u32,
>
    decreases ids.len(),
{
    if ids.len() == 0 {
        Seq::empty()
    } else {
        let earlier = deleted(chunks, owner, ids.drop_last());
        let id = ids.last();
        if chunks.contains_key((id, owner)) && !earlier.contains(id) {
            earlier.push(id)
        } else {
            earlier
        }
    }
}

/// The keys under which `owner` holds the chunks that `ids` names.
pub open spec fn keys_of(owner: Seq<u8>, ids: Seq<u32>) -> Set<(u32, Seq<u8>)> {
    Set::new(|key: (u32, Seq<u8>)| key.1 == owner && ids.contains(key.0))
}

impl ChunksStoreView {
    /// `list` holds every chunk of the store once, with its id, its owner
    /// and its bytes, and nothing else.
    pub open spec fn listed_by(self, list: Seq<(u32, Principal, Vec<u8>)>) -> bool {
        &&& forall|j: int|
            0 <= j < list.len() ==> self.chunks.contains_key(((#[trigger] list[j]).0, list[j].1@))
                && self.chunks[(list[j].0, list[j].1@)] == list[j].2@
        &&& forall|i: int, j: int|
            0 <= i < j < list.len() ==> (#[trigger] list[i]).0 != (#[trigger] list[j]).0
        &&& forall|key: (u32, Seq<u8>)| #[trigger]
            self.chunks.contains_key(key) ==> exists|j: int|
                0 <= j < list.len() && (#[trigger] list[j]).0 == key.0 && list[j].1@ == key.1
    }

    /// `keys` holds the key of every chunk of the store once, and nothing
    /// else.
    pub open spec fn keyed_by(self, keys: Seq<(u32, Principal)>) -> bool {
        &&& forall|j: int|
            0 <= j < keys.len() ==> self.chunks.contains_key(((#[trigger] keys[j]).0, keys[j].1@))
        &&& forall|i: int, j: int|
            0 <= i < j < keys.len() ==> (#[trigger] keys[i]).0 != (#[trigger] keys[j]).0
        &&& forall|key: (u32, Seq<u8>)| #[trigger]
            self.chunks.contains_key(key) ==> exists|j: int|
                0 <= j < keys.len() && (#[trigger] keys[j]).0 == key.0 && keys[j].1@ == key.1
    }

    /// The store's invariant: every chunk id is between 1 and the last id
    /// given out, and no chunk id stands under two owners.
    pub open spec fn valid(self) -> bool {
        &&& forall|key: (u32, Seq<u8>)| #[trigger]
            self.chunks.contains_key(key) ==> 1 <= key.0 <= self.chunk_id
        &&& forall|id: u32, a: Seq<u8>, b: Seq<u8>|
            #[trigger] self.chunks.contains_key((id, a)) && #[trigger] self.chunks.contains_key((id, b))
                ==> a == b
    }
}

/// `deleted` lists exactly the ids of `ids` that name a chunk of `owner`,
/// none of them twice.
pub proof fn lemma_deleted(chunks: Map<(u32, Seq<u8>), Seq<u8>>, owner: Seq<u8>, ids: Seq<u32>)
    ensures
        deleted(chunks, owner, ids).no_duplicates(),
        forall|id: u32|
            #[trigger] deleted(chunks, owner, ids).contains(id) <==> ids.contains(id)
                && chunks.contains_key((id, owner)),
    decreases ids.len(),
{
    let list = deleted(chunks, owner, ids);
    if ids.len() > 0 {
        let front = ids.drop_last();
        let earlier = deleted(chunks, owner, front);
        lemma_deleted(chunks, owner, front);
        assert forall|id: u32| #[trigger] list.contains(id) <==> ids.contains(id) && chunks.contains_key(
            (id, owner),
        ) by {
            if list.contains(id) {
                let j = choose|j: int| 0 <= j < list.len() && list[j] == id;
                if j < earlier.len() {
                    assert(earlier.contains(id));
                }
            }
            if ids.contains(id) && chunks.contains_key((id, owner)) {
                let l = choose|l: int| 0 <= l < ids.len() && ids[l] == id;
                if l < front.len() {
                    assert(front[l] == id);
                }
                if earlier.contains(id) {
                    let j = choose|j: int| 0 <= j < earlier.len() && earlier[j] == id;
                    assert(list[j] == id);
                } else {
                    assert(list[list.len() - 1] == id);
                }
            }
        }
    }
}

/// Deleting is idempotent: once the chunks that `ids` names are gone,
/// deleting `ids` again reports nothing, and deleting any other list reports
/// none of the ids that went the first time.
pub proof fn lemma_delete_twice(
    chunks: Map<(u32, Seq<u8>), Seq<u8>>,
    owner: Seq<u8>,
    ids: Seq<u32>,
    again: Seq<u32>,
)
    ensures
        deleted(chunks.remove_keys(keys_of(owner, ids)), owner, ids) == Seq::<u32>::empty(),
        forall|id: u32|
            deleted(chunks, owner, ids).contains(id) ==> !deleted(
                chunks.remove_keys(keys_of(owner, ids)),
                owner,
                again,
            ).contains(id),
{
    let rest = chunks.remove_keys(keys_of(owner, ids));
    lemma_deleted(chunks, owner, ids);
    lemma_deleted(rest, owner, ids);
    lemma_deleted(rest, owner, again);
    let second = deleted(rest, owner, ids);
    if second.len() > 0 {
        assert(second.contains(second[0]));
    }
}

/// The whole state of a chunk store as plain values, as it is written out
/// before a restart and read back after it.
#[derive(Debug, PartialEq, Eq)]
pub struct ChunksSnapshot {
    /// The tenant the unit was set up for.
    pub canister_owner: Principal,
    /// The chunk id given out last.
    pub chunk_id: u32,
    /// Every chunk: its id, its owner and its bytes.
    pub chunks: Vec<(u32, Principal, Vec<u8>)>,
}

impl ChunksSnapshot {
    /// Entry `k` of the snapshot is the chunk stored under `key`.
    pub open spec fn holds(&self, k: int, key: (u32, Seq<u8>)) -> bool {
        0 <= k < self.chunks@.len() && self.chunks@[k].0 == key.0 && self.chunks@[k].1@ == key.1
    }

    /// The store that the snapshot describes.
    pub open spec fn state(&self) -> ChunksStoreView {
        ChunksStoreView {
            canister_owner: self.canister_owner@,
            chunk_id: self.chunk_id,
            chunks: Map::new(
                |key: (u32, Seq<u8>)| exists|k: int| self.holds(k, key),
                |key: (u32, Seq<u8>)| self.chunks@[choose|k: int| self.holds(k, key)].2@,
            ),
        }
    }

    /// The snapshot describes a store that can exist: no chunk id stands
    /// twice, and each is between 1 and the last id given out.
    pub open spec fn sound(&self) -> bool {
        &&& forall|k: int|
            0 <= k < self.chunks@.len() ==> 1 <= (#[trigger] self.chunks@[k]).0 <= self.chunk_id
        &&& forall|a: int, b: int|
            0 <= a < b < self.chunks@.len() ==> (#[trigger] self.chunks@[a]).0 != (
            #[trigger] self.chunks@[b]).0
    }
}

impl View for ChunksStore {
    type V = ChunksStoreView;

    closed spec fn view(&self) -> ChunksStoreView {
        ChunksStoreView {
            canister_owner: self.canister_owner@,
            chunk_id: self.chunk_id,
            chunks: Map::new(
                |key: (u32, Seq<u8>)|
                    self.chunks@.contains_key(key.0) && self.chunks@[key.0].owner@ == key.1,
                |key: (u32, Seq<u8>)| self.chunks@[key.0].blob@,
            ),
        }
    }
}

impl Default for ChunksStore {
    /// An empty store, set up for the anonymous identity, that has given
    /// out no id yet.
    fn default() -> (store: ChunksStore)
        ensures
            store.wf(),
            store@.canister_owner == anonymous_bytes(),
            store@.chunk_id == 0,
            store@.chunks == Map::<(u32, Seq<u8>), Seq<u8>>::empty(),
    {
        let store = ChunksStore {
            canister_owner: Principal::anonymous(),
            chunk_id: 0,
            chunks: HashMap::new(),
        };
        store
    }
}

impl ChunksStore {
    /// The store's invariant holds; see [`ChunksStoreView::valid`].
    pub open spec fn wf(&self) -> bool {
        self@.valid()
    }

    /// Sets the tenant this unit is for, when one is named.
    pub fn init(&mut self, canister_owner: Option<Principal>)
        requires
            old(self).wf(),
        ensures
            final(self).wf(),
            final(self)@ == (ChunksStoreView {
                canister_owner: match canister_owner {
                    Some(owner) => owner@,
                    None => old(self)@.canister_owner,
                },
                ..old(self)@
            }),
    {
        let ghost before = self@;
        if let Some(owner) = canister_owner {
            self.canister_owner = owner;
        }
        assert(self@.chunks =~= before.chunks);
    }

    /// The tenant this unit was set up for.
    pub fn canister_owner(&self) -> (owner: &Principal)
        ensures
            owner@ == self@.canister_owner,
    {
        &self.canister_owner
    }

    /// The chunk id given out last; 0 before the first.
    pub fn chunk_id(&self) -> (id: u32)
        ensures
            id == self@.chunk_id,
    {
        self.chunk_id
    }

    /// A summary of the store: whom the unit is for, the chunk id given out
    /// last, and the key of every stored chunk, each once, in no particular
    /// order.
    pub fn get_state(&self) -> (state: ChunkStoreState)
        requires
            self.wf(),
        ensures
            state.canister_owner@ == self@.canister_owner,
            state.chunk_id == self@.chunk_id,
            self@.keyed_by(state.chunks@),
    {
        let mut chunks: Vec<(u32, Principal)> = Vec::new();
        let ghost keys = self.chunks.keys().remaining().unref();
        for id in it: self.chunks.keys()
            invariant
                keys == it.seq().unref(),
                keys.no_duplicates(),
                keys.to_set() == self.chunks@.dom(),
                chunks@.len() == it.index(),
                forall|j: int| 0 <= j < chunks@.len() ==> (#[trigger] chunks@[j]).0 == keys[j],
                forall|j: int|
                    0 <= j < chunks@.len() ==> self.chunks@[keys[j]].owner@ == (#[trigger] chunks@[j]).1@,
        {
            match self.chunks.get(id) {
                Some(stored) => {
                    chunks.push((*id, stored.owner.clone()));
                },
                None => {},
            }
        }
        let state = ChunkStoreState {
            canister_owner: self.canister_owner.clone(),
            chunk_id: self.chunk_id,
            chunks,
        };
        proof {
            let list = state.chunks@;
            assert forall|key: (u32, Seq<u8>)| #[trigger] self@.chunks.contains_key(key) implies exists|
                j: int,
            |
                0 <= j < list.len() && (#[trigger] list[j]).0 == key.0 && list[j].1@ == key.1 by {
                let j = choose|j: int| 0 <= j < keys.len() && keys[j] == key.0;
                assert(list[j].0 == key.0);
            }
        }
        state
    }

    /// Every stored chunk with its id and owner, each once, in no
    /// particular order.
    pub fn get_all_chunks(&self) -> (list: Vec<(u32, Principal, Vec<u8>)>)
        requires
            self.wf(),
        ensures
            self@.listed_by(list@),
    {
        let mut list: Vec<(u32, Principal, Vec<u8>)> = Vec::new();
        let ghost keys = self.chunks.keys().remaining().unref();
        for id in it: self.chunks.keys()
            invariant
                keys == it.seq().unref(),
                keys.no_duplicates(),
                keys.to_set() == self.chunks@.dom(),
                list@.len() == it.index(),
                forall|j: int| 0 <= j < list@.len() ==> (#[trigger] list@[j]).0 == keys[j],
                forall|j: int|
                    0 <= j < list@.len() ==> self.chunks@[keys[j]].owner@ == (#[trigger] list@[j]).1@
                        && self.chunks@[keys[j]].blob@ == list@[j].2@,
        {
            match self.chunks.get(id) {
                Some(stored) => {
                    list.push((*id, stored.owner.clone(), stored.blob.clone()));
                },
                None => {},
            }
        }
        proof {
            assert forall|key: (u32, Seq<u8>)| #[trigger] self@.chunks.contains_key(key) implies exists|
                j: int,
            |
                0 <= j < list@.len() && (#[trigger] list@[j]).0 == key.0 && list@[j].1@ == key.1 by {
                let j = choose|j: int| 0 <= j < keys.len() && keys[j] == key.0;
                assert(list@[j].0 == key.0);
            }
        }
        list
    }

    /// The bytes of the chunk `chunk_id` of `principal`.
    pub fn get_chunks_by_chunk_id(&self, chunk_id: u32, principal: Principal) -> (r: Result<
        Vec<u8>,
        ApiError,
    >)
        ensures
            r is Ok <==> self@.chunks.contains_key((chunk_id, principal@)),
            match r {
                Ok(blob) => blob@ == self@.chunks[(chunk_id, principal@)],
                Err(e) => e@ == chunks_not_found(),
            },
    {
        match self.chunks.get(&chunk_id) {
            Some(stored) => {
                if stored.owner.same(&principal) {
                    Ok(stored.blob.clone())
                } else {
                    Err(ApiError::chunks_not_found())
                }
            },
            None => Err(ApiError::chunks_not_found()),
        }
    }

    /// Stores the bytes of `post_chunk` for `principal` under the next chunk
    /// id, and hands back the chunk's handle, stamped with `canister`, the
    /// address of this unit.
    pub fn add_chunk(&mut self, principal: Principal, post_chunk: PostChunk, canister: Principal) -> (r:
        Result<Chunk, ApiError>)
        requires
            old(self).wf(),
            old(self)@.chunk_id < u32::MAX,
        ensures
            final(self).wf(),
            r matches Ok(chunk) && chunk@ == (ChunkView {
                id: (old(self)@.chunk_id + 1) as u32,
                index: post_chunk.index,
                canister: canister@,
            }),
            final(self)@ == (ChunksStoreView {
                chunk_id: (old(self)@.chunk_id + 1) as u32,
                chunks: old(self)@.chunks.insert(
                    ((old(self)@.chunk_id + 1) as u32, principal@),
                    post_chunk.blob@,
                ),
                ..old(self)@
            }),
    {
        let ghost before = self@;
        let chunk_id = self.chunk_id + 1;
        self.chunk_id = chunk_id;
        self.chunks.insert(chunk_id, StoredChunk { owner: principal, blob: post_chunk.blob });
        proof {
            assert(self@.chunks =~= before.chunks.insert((chunk_id, principal@), post_chunk.blob@));
        }
        Ok(Chunk { id: chunk_id, index: post_chunk.index, canister })
    }

    /// Deletes the chunks of `principal` that `delete_chunk_ids` names. An
    /// id that names no chunk of `principal` is passed over. The result
    /// lists what was deleted.
    pub fn delete_chunks(&mut self, principal: Principal, delete_chunk_ids: Vec<u32>) -> (r: Result<
        Vec<u32>,
        ApiError,
    >)
        requires
            old(self).wf(),
        ensures
            final(self).wf(),
            r matches Ok(removed) && removed@ == deleted(
                old(self)@.chunks,
                principal@,
                delete_chunk_ids@,
            ),
            final(self)@ == (ChunksStoreView {
                chunks: old(self)@.chunks.remove_keys(keys_of(principal@, delete_chunk_ids@)),
                ..old(self)@
            }),
    {
        let ghost before = self@;
        let mut removed_chunk_ids: Vec<u32> = Vec::new();
        let mut k: usize = 0;
        proof {
            assert(before.chunks.remove_keys(keys_of(principal@, delete_chunk_ids@.subrange(0, 0)))
                =~= before.chunks);
        }
        while k < delete_chunk_ids.len()
            invariant
                self.wf(),
                k <= delete_chunk_ids@.len(),
                before.valid(),
                removed_chunk_ids@ == deleted(
                    before.chunks,
                    principal@,
                    delete_chunk_ids@.subrange(0, k as int),
                ),
                self@ == (ChunksStoreView {
                    chunks: before.chunks.remove_keys(
                        keys_of(principal@, delete_chunk_ids@.subrange(0, k as int)),
                    ),
                    ..before
                }),
            decreases delete_chunk_ids@.len() - k,
        {
            let id = delete_chunk_ids[k];
            let ghost done = delete_chunk_ids@.subrange(0, k as int);
            let ghost next = delete_chunk_ids@.subrange(0, k + 1);
            let ghost then = self@;
            proof {
                assert(next.drop_last() =~= done);
                lemma_deleted(before.chunks, principal@, done);
            }
            let mine = match self.chunks.get(&id) {
                Some(stored) => stored.owner.same(&principal),
                None => false,
            };
            assert(mine == then.chunks.contains_key((id, principal@)));
            if mine {
                self.chunks.remove(&id);
                removed_chunk_ids.push(id);
            }
            proof {
                let target = before.chunks.remove_keys(keys_of(principal@, next));
                assert forall|key: (u32, Seq<u8>)| self@.chunks.contains_key(key) <==> target.contains_key(
                    key,
                ) by {
                    assert(then.chunks.contains_key(key) <==> before.chunks.contains_key(key) && !keys_of(
                        principal@,
                        done,
                    ).contains(key));
                }
                assert forall|key: (u32, Seq<u8>)| self@.chunks.contains_key(key) implies self@.chunks[key]
                    == target[key] by {
                    assert(then.chunks[key] == before.chunks[key]);
                }
                assert(self@.chunks =~= target);
            }
            k += 1;
        }
        proof {
            assert(delete_chunk_ids@.subrange(0, k as int) =~= delete_chunk_ids@);
        }
        Ok(removed_chunk_ids)
    }

    /// The whole state, to be written out before a restart. Restoring it
    /// gives a store equal to this one.
    pub fn snapshot(&self) -> (snapshot: ChunksSnapshot)
        requires
            self.wf(),
        ensures
            snapshot.sound(),
            snapshot.state() == self@,
    {
        let chunks = self.get_all_chunks();
        let snapshot = ChunksSnapshot {
            canister_owner: self.canister_owner.clone(),
            chunk_id: self.chunk_id,
            chunks,
        };
        proof {
            let list = snapshot.chunks@;
            assert forall|key: (u32, Seq<u8>)| #[trigger]
                snapshot.state().chunks.contains_key(key) <==> self@.chunks.contains_key(key) by {
                if self@.chunks.contains_key(key) {
                    let j = choose|j: int|
                        0 <= j < list.len() && (#[trigger] list[j]).0 == key.0 && list[j].1@ == key.1;
                    assert(snapshot.holds(j, key));
                }
            }
            assert(snapshot.state().chunks =~= self@.chunks);
        }
        snapshot
    }

    /// The store that `snapshot` describes; `None` where it describes none,
    /// because a chunk id stands twice or was never given out.
    pub fn restore(snapshot: ChunksSnapshot) -> (r: Option<ChunksStore>)
        ensures
            r is Some <==> snapshot.sound(),
            r matches Some(store) ==> store.wf() && store@ == snapshot.state(),
    {
        let ghost list = snapshot.chunks@;
        let mut chunks: HashMap<u32, StoredChunk> = HashMap::new();
        let mut k: usize = 0;
        while k < snapshot.chunks.len()
            invariant
                list == snapshot.chunks@,
                k <= list.len(),
                forall|a: int| 0 <= a < k ==> 1 <= (#[trigger] list[a]).0 <= snapshot.chunk_id,
                forall|a: int, b: int|
                    0 <= a < b < k ==> (#[trigger] list[a]).0 != (#[trigger] list[b]).0,
                forall|a: int|
                    0 <= a < k ==> chunks@.contains_key((#[trigger] list[a]).0) && chunks@[list[a].0].owner@
                        == list[a].1@ && chunks@[list[a].0].blob@ == list[a].2@,
                forall|id: u32| #[trigger]
                    chunks@.contains_key(id) ==> exists|a: int| 0 <= a < k && (#[trigger] list[a]).0 == id,
            decreases list.len() - k,
        {
            let entry = &snapshot.chunks[k];
            let id = entry.0;
            if id < 1 || id > snapshot.chunk_id {
                return None;
            }
            if chunks.contains_key(&id) {
                return None;
            }
            chunks.insert(id, StoredChunk { owner: entry.1.clone(), blob: entry.2.clone() });
            k += 1;
        }
        let store = ChunksStore {
            canister_owner: snapshot.canister_owner,
            chunk_id: snapshot.chunk_id,
            chunks,
        };
        proof {
            let target = snapshot.state();
            assert forall|key: (u32, Seq<u8>)| #[trigger]
                store@.chunks.contains_key(key) <==> target.chunks.contains_key(key) by {
                if store@.chunks.contains_key(key) {
                    let a = choose|a: int| 0 <= a < k && (#[trigger] list[a]).0 == key.0;
                    assert(snapshot.holds(a, key));
                }
            }
            assert(store@.chunks =~= target.chunks);
        }
        Some(store)
    }

    /// The store as it comes back from a restart: written out and read back,
    /// it is equal to this one.
    pub fn reload(&self) -> (store: ChunksStore)
        requires
            self.wf(),
        ensures
            store.wf(),
            store@ == self@,
    {
        match ChunksStore::restore(self.snapshot()) {
            Some(store) => store,
            None => unreached(),
        }
    }
}

} // verus!
