pub mod json_scan;
pub mod document;
pub mod fs_ops;

use vstd::prelude::*;

verus! {

/// Shared configuration for the service: the root of the document tree that
/// every upsert request walks.
#[derive(Clone)]
pub struct AppState {
    pub data_directory: String,
}

impl AppState {
    pub fn new(data_directory: String) -> (r: Self)
        ensures
            r.data_directory@ == data_directory@,
    {
        AppState { data_directory }
    }
}

} // verus!

verus! {

use crate::fs_ops::{
    FsTree, JsonFileSearcher, Outcome, walk_spec, modified_spec, skipped_spec, unmatched_spec,
    writes_view, paths_view,
};

/// The editor endpoint's decision, free of its transport: run one walk over
/// the tree with the requested block identifier and property table, and
/// echo the submitted properties back with status 201 whatever the walk
/// found; per-file outcomes are reported beside the status, never in it.
pub fn upsert_props(tree: &FsTree, uuid: &[u8], props: &[u8]) -> (r: (u16, Vec<u8>, FsTree, Outcome))
    ensures
        r.0 == 201,
        r.1@ == props@,
        r.2@ == walk_spec(tree@, uuid@, props@),
        writes_view(r.3.modified@) == modified_spec(tree@, uuid@, props@),
        paths_view(r.3.skipped@) == skipped_spec(tree@),
        paths_view(r.3.unmatched@) == unmatched_spec(tree@, uuid@),
        r.3.failed@.len() == 0,
{
    let searcher = JsonFileSearcher::new();
    let (nt, oc) = searcher.search_and_replace_props(tree, uuid, props);
    (201, crate::document::copy_bytes(props), nt, oc)
}

} // verus!
