//! Build-time asset resolution: a declarative set of asset entries (single
//! files, glob-expanded groups, or embedded byte blobs) is resolved into an
//! immutable table mapping final HTTP paths to byte content.  Entries may
//! depend on each other's final, content-hashed paths, so resolution builds a
//! dependency graph, orders it topologically, and applies content modifiers
//! only once the dependencies themselves are fully resolved.

#![verifier::loop_isolation(false)]

mod builder;
mod graph;
mod hash;
mod paths;
mod resolve;
mod setup;
mod substitute;

pub use builder::{
    Builder, DataSource, EmbeddedEntry, EmbeddedFile, EmbeddedGlob, EntryBuilder,
    EntryBuilderKind, GlobFile, Modifier, ModifierContext, SpecSource, Transform,
};
pub use graph::{is_cycle, topo_order, valid_topo, wf_deps, lemma_cycle_excludes_topo};
pub use hash::{
    compute_digest, compute_hash_segment, digest, hash_segment, hex64,
    lemma_digest_one_byte_change, lemma_hash_segment_one_byte_change, lemma_hash_segment_pure,
    render_hex64,
};
pub use paths::{
    apply_path_hash, auto_hashed_path, auto_split_at, framed, glob_prefix_len, is_framed,
    spec_final_path, PathHash, SplitGlob,
};
pub use resolve::{
    acyclic, all_declared_unique, all_deps_resolved, buildable, custom_resolved_at, dep_ids_of,
    dep_pairs, expand_one, spec_origins,
    finals_unique, lemma_dependency_substitution, lemma_resolution_deterministic, lookup_file, modifier_custom, modifier_deps,
    no_custom, policies_framed, spec_expand, spec_graph, spec_raw, sources_present, sub_list,
    table_ok, targets_for, Assets, BuildError, FileStore, RRec, ResolvedEntry, SpecEntry,
};
pub use setup::{resolve_path, AssetDef, AssetId, PathToIdMap, Setup};
pub use substitute::{replace_all, substitute};
