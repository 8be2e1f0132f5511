use vstd::prelude::*;

pub mod ai;
pub mod byte_map;
pub mod bytes;
pub mod deal_pktlines;
pub mod diff;
pub mod diff_laws;
pub mod display_laws;
pub mod fetch;
pub mod fetch_laws;
pub mod first_parents;
pub mod get_args;
pub mod get_packfile_by_network;
pub mod checkout;
pub mod checkout_laws;
pub mod clean_index;
pub mod clone_laws;
pub mod clone_plan;
pub mod git_paths;
pub mod head;
pub mod head_laws;
pub mod ignore;
pub mod index;
pub mod index_laws;
pub mod index_tree;
pub mod layout;
pub mod link_laws;
pub mod log;
pub mod merge;
pub mod merge_base;
pub mod merge_laws;
pub mod nesting;
pub mod net_laws;
pub mod numbers;
pub mod commit;
pub mod commit_identity;
pub mod commit_laws;
pub mod commit_object;
pub mod object;
pub mod object_db;
pub mod object_graph;
pub mod oid_list;
pub mod outside;
pub mod outcome_laws;
pub mod pack_laws;
pub mod parse_packfile;
pub mod path_laws;
pub mod path_set;
pub mod picking;
pub mod pull;
pub mod push;
pub mod reference;
pub mod sorting;
pub mod staging_laws;
pub mod staging;
pub mod status;
pub mod status_laws;
pub mod symbolic_ref;
pub mod text;
pub mod text_laws;
pub mod tree_laws;
pub mod unix_path;
pub mod walks;

verus! {

} // verus!
