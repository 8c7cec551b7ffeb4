use vstd::prelude::*;
use crate::principal::Principal;

verus! {

/// The handle of a stored chunk: its id, the position the uploader gave it,
/// and the address of the storage unit that holds its bytes.
#[derive(Debug, PartialEq, Eq)]
pub struct Chunk {
    pub id: u32,
    pub index: u32,
    pub canister: Principal,
}

/// The mathematical value of a [`Chunk`].
pub struct ChunkView {
    pub id: u32,
    pub index: u32,
    pub canister: Seq<u8>,
}

impl View for Chunk {
    type V = ChunkView;

    open spec fn view(&self) -> ChunkView {
        ChunkView { id: self.id, index: self.index, canister: self.canister@ }
    }
}

impl Clone for Chunk {
    fn clone(&self) -> (r: Chunk)
        ensures
            r@ == self@,
    {
        Chunk { id: self.id, index: self.index, canister: self.canister.clone() }
    }
}

/// A summary of a chunk store for its administrators: whom the unit is for,
/// the chunk id given out last, and the key of every stored chunk.
#[derive(Debug, PartialEq, Eq)]
pub struct ChunkStoreState {
    pub canister_owner: Principal,
    pub chunk_id: u32,
    pub chunks: Vec<(u32, Principal)>,
}

/// One fragment of an upload: the bytes and their position in the file.
#[derive(Debug, PartialEq, Eq)]
pub struct PostChunk {
    pub blob: Vec<u8>,
    pub index: u32,
}

} // verus!
