use vstd::prelude::*;
use crate::principal::Principal;

verus! {

/// Whether a node is a file or a folder.
#[derive(Clone, Copy, Debug, PartialEq, Eq, Structural)]
pub enum AssetType {
    File,
    Folder,
}

/// A node of a tenant's hierarchy.
#[derive(Debug, PartialEq, Eq)]
pub struct Asset {
    pub id: u32,
    pub user_id: Principal,
    pub parent_id: Option<u32>,
    pub asset_type: AssetType,
    pub name: String,
    pub is_favorite: bool,
    pub size: u32,
    pub extension: String,
    pub mime_type: String,
    pub chunks: Vec<u32>,
    pub created_at: u64,
    pub updated_at: u64,
}

/// The mathematical value of an [`Asset`].
pub struct AssetView {
    pub id: u32,
    pub user_id: Seq<u8>,
    pub parent_id: Option<u32>,
    pub asset_type: AssetType,
    pub name: Seq<char>,
    pub is_favorite: bool,
    pub size: u32,
    pub extension: Seq<char>,
    pub mime_type: Seq<char>,
    pub chunks: Seq<u32>,
    pub created_at: u64,
    pub updated_at: u64,
}

impl View for Asset {
    type V = AssetView;

    open spec fn view(&self) -> AssetView {
        AssetView {
            id: self.id,
            user_id: self.user_id@,
            parent_id: self.parent_id,
            asset_type: self.asset_type,
            name: self.name@,
            is_favorite: self.is_favorite,
            size: self.size,
            extension: self.extension@,
            mime_type: self.mime_type@,
            chunks: self.chunks@,
            created_at: self.created_at,
            updated_at: self.updated_at,
        }
    }
}

/// The values of a list of nodes, in the same order.
pub open spec fn assets_view(list: Seq<Asset>) -> Seq<AssetView> {
    list.map_values(|a: Asset| a@)
}

impl Clone for Asset {
    fn clone(&self) -> (r: Asset)
        ensures
            r@ == self@,
    {
        Asset {
            id: self.id,
            user_id: self.user_id.clone(),
            parent_id: self.parent_id,
            asset_type: self.asset_type,
            name: self.name.clone(),
            is_favorite: self.is_favorite,
            size: self.size,
            extension: self.extension.clone(),
            mime_type: self.mime_type.clone(),
            chunks: self.chunks.clone(),
            created_at: self.created_at,
            updated_at: self.updated_at,
        }
    }
}

/// What a caller supplies to create a node.
#[derive(Debug, PartialEq, Eq)]
pub struct PostAsset {
    pub parent_id: Option<u32>,
    pub asset_type: AssetType,
    pub name: String,
    pub size: u32,
    pub extension: String,
    pub mime_type: String,
    pub chunks: Vec<u32>,
}

/// A patch for one node. A field that is `None` leaves the node's value as
/// it is.
#[derive(Debug, PartialEq, Eq)]
pub struct EditAsset {
    pub id: u32,
    pub parent_id: Option<u32>,
    pub name: Option<String>,
    pub extension: Option<String>,
    pub is_favorite: Option<bool>,
}

/// A request to hang one node under another parent, or under the root when
/// `parent_id` is `None`.
#[derive(Clone, Copy, Debug, PartialEq, Eq, Structural)]
pub struct MoveAsset {
    pub id: u32,
    pub parent_id: Option<u32>,
}

} // verus!
