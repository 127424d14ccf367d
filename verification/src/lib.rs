//! Workspace tree model and event ledger for a local note-taking workspace.
//!
//! A designated root folder holds notes as files and subfolders; a small
//! date-indexed event ledger is kept alongside it. The library models the
//! folder hierarchy and the ledger, and proves the operations on them:
//! resolving the workspace root, snapshotting the tree for display, the
//! mutating entry operations, and the ledger's insert/query/delete.

use vstd::prelude::*;

mod errors;
mod ledger;
mod paths;
mod resolver;
mod tree;

pub use errors::WsError;
pub use ledger::{lemma_delete_event_gone, lemma_delete_event_noop, Event, EventV, Ledger};
pub use tree::{
    can_create_folder, can_delete, can_rename, can_write, child_keys, create_folder_map,
    delete_map, lemma_create_folder_idempotent, lemma_node_child_count, node_ok, rename_aux,
    rename_map, wf_map, write_map, FileNode, NodeV, Workspace,
};
pub use paths::{
    can_parse, parse_path, path_clone, path_eq, path_parent, path_push, path_starts_with,
    path_valid, rendered, rendered_tail, seg_valid, under_or_eq, valid_path, valid_seg,
};
pub use resolver::{os_root_path, resolve_root, root_path_of, root_seg};
pub use tree::lemma_write_read_round_trip;

verus! {

} // verus!
