//! A multi-tenant hierarchical storage platform. Each tenant owns a tree of
//! files and folders, uploads file content as chunks that are stored apart
//! from the tree, and gets storage units of their own on demand.
//!
//! - [`utils`]: the access gate, and the resolution of a node's descendants.
//! - [`assets_store`] with [`assets_model`] and [`assets_links`]: the tree
//!   of nodes per tenant, and the parent chains that keep it a tree.
//! - [`chunks_store`]: the chunks, found by id and owner.
//! - [`users_store`]: the tenant directory and the two phases of
//!   provisioning a storage unit.
//! - [`assets_controller`], [`chunks_controller`], [`users_controller`]:
//!   the stores behind the access gate.
//!
//! Each store has a mathematical value, its view, and an invariant that
//! every operation keeps. The contracts are stated over the views.

pub mod assets_controller;
pub mod assets_links;
pub mod assets_model;
pub mod assets_store;
pub mod chunks_controller;
pub mod chunks_store;
pub mod principal;
pub mod types;
pub mod users_controller;
pub mod users_store;
pub mod utils;
