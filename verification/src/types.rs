pub mod api_error;
pub mod asset;
pub mod chunk;
pub mod nft;
pub mod user;
