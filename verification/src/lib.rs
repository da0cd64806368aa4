//! Link-maintaining mutations of a plaintext workspace.

pub mod adopt;
pub mod change;
pub mod codec;
pub mod config;
pub mod confirm;
pub mod convert;
pub mod create;
pub mod delete;
pub mod document;
pub mod duplicate;
pub mod error;
pub mod field;
pub mod files;
pub mod fixity;
pub mod follow;
pub mod following;
pub mod landing;
pub mod link;
pub mod maintain;
pub mod meta;
pub mod move_tree;
pub mod naming;
pub mod path;
pub mod prose;
pub mod reading;
pub mod recycle;
pub mod registry;
pub mod relation;
pub mod removal;
pub mod rename;
pub mod reorder;
pub mod reparent;
pub mod restore;
pub mod retitle;
pub mod save;
pub mod separate;
pub mod survey;
pub mod text;
pub mod title;
pub mod transcode;
pub mod walk;
pub mod workspace;
pub mod written;

use vstd::prelude::*;

verus! {

} // verus!
