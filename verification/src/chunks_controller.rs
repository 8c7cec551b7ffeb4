use vstd::prelude::*;
use crate::chunks_store::{deleted, keys_of, ChunksStore, ChunksStoreView};
use crate::principal::{anonymous_bytes, Principal};
use crate::types::api_error::{chunks_not_found, unauthorized, ApiError};
use crate::types::chunk::{Chunk, ChunkStoreState, ChunkView, PostChunk};
use crate::types::user::principals_view;
use crate::utils::{validate_admin, validate_anonymous};

verus! {

/// For administrators: a summary of the store.
pub fn get_state(store: &ChunksStore, caller: &Principal, whitelist: &Vec<Principal>) -> (r: Result<
    ChunkStoreState,
    ApiError,
>)
    requires
        store.wf(),
    ensures
        r is Ok <==> principals_view(whitelist@).contains(caller@),
        match r {
            Ok(state) => {
                &&& state.canister_owner@ == store@.canister_owner
                &&& state.chunk_id == store@.chunk_id
                &&& store@.keyed_by(state.chunks@)
            },
            Err(e) => e@ == unauthorized(),
        },
{
    match validate_admin(caller, whitelist) {
        Ok(_) => Ok(store.get_state()),
        Err(err) => Err(err),
    }
}

/// For administrators: every stored chunk with its id and owner.
pub fn get_all_chunks(store: &ChunksStore, caller: &Principal, whitelist: &Vec<Principal>) -> (r: Result<
    Vec<(u32, Principal, Vec<u8>)>,
    ApiError,
>)
    requires
        store.wf(),
    ensures
        r is Ok <==> principals_view(whitelist@).contains(caller@),
        match r {
            Ok(list) => store@.listed_by(list@),
            Err(e) => e@ == unauthorized(),
        },
{
    match validate_admin(caller, whitelist) {
        Ok(_) => Ok(store.get_all_chunks()),
        Err(err) => Err(err),
    }
}

/// The bytes of one of the caller's chunks. The anonymous caller is turned
/// away; a chunk that is not the caller's is not found.
pub fn get_chunks_by_chunk_id(store: &ChunksStore, caller: &Principal, chunk_id: u32) -> (r: Result<
    Vec<u8>,
    ApiError,
>)
    ensures
        r is Ok <==> caller@ != anonymous_bytes() && store@.chunks.contains_key((chunk_id, caller@)),
        match r {
            Ok(blob) => blob@ == store@.chunks[(chunk_id, caller@)],
            Err(e) => e@ == if caller@ == anonymous_bytes() {
                unauthorized()
            } else {
                chunks_not_found()
            },
        },
{
    match validate_anonymous(caller) {
        Ok(principal) => store.get_chunks_by_chunk_id(chunk_id, principal),
        Err(err) => Err(err),
    }
}

/// Stores a chunk for the caller and hands back its handle, stamped with
/// `canister`, the address of this unit. The anonymous caller is turned
/// away and the store stays as it is.
pub fn add_chunk(store: &mut ChunksStore, caller: &Principal, chunk: PostChunk, canister: Principal) -> (r:
    Result<Chunk, ApiError>)
    requires
        old(store).wf(),
        old(store)@.chunk_id < u32::MAX,
    ensures
        final(store).wf(),
        r is Ok <==> caller@ != anonymous_bytes(),
        match r {
            Ok(handle) => {
                &&& handle@ == (ChunkView {
                    id: (old(store)@.chunk_id + 1) as u32,
                    index: chunk.index,
                    canister: canister@,
                })
                &&& final(store)@ == (ChunksStoreView {
                    chunk_id: (old(store)@.chunk_id + 1) as u32,
                    chunks: old(store)@.chunks.insert(
                        ((old(store)@.chunk_id + 1) as u32, caller@),
                        chunk.blob@,
                    ),
                    ..old(store)@
                })
            },
            Err(e) => e@ == unauthorized() && final(store)@ == old(store)@,
        },
{
    match validate_anonymous(caller) {
        Ok(principal) => store.add_chunk(principal, chunk, canister),
        Err(err) => Err(err),
    }
}

/// Deletes the named chunks of the caller, passing over what is not there.
/// The anonymous caller is turned away and the store stays as it is.
pub fn delete_chunks(store: &mut ChunksStore, caller: &Principal, chunk_ids: Vec<u32>) -> (r: Result<
    Vec<u32>,
    ApiError,
>)
    requires
        old(store).wf(),
    ensures
        final(store).wf(),
        r is Ok <==> caller@ != anonymous_bytes(),
        match r {
            Ok(removed) => {
                &&& removed@ == deleted(old(store)@.chunks, caller@, chunk_ids@)
                &&& final(store)@ == (ChunksStoreView {
                    chunks: old(store)@.chunks.remove_keys(keys_of(caller@, chunk_ids@)),
                    ..old(store)@
                })
            },
            Err(e) => e@ == unauthorized() && final(store)@ == old(store)@,
        },
{
    match validate_anonymous(caller) {
        Ok(principal) => store.delete_chunks(principal, chunk_ids),
        Err(err) => Err(err),
    }
}

} // verus!
