//! Cross-reference index for C and C++ sources.
use vstd::prelude::*;

pub mod answer_laws;
pub mod args;
pub mod argument_laws;
pub mod benchmark;
pub mod checksum;
pub mod cli;
pub mod cli_laws;
pub mod config;
pub mod contents_laws;
pub mod cpp_parser;
pub mod db_laws;
pub mod def_pass;
pub mod expand;
pub mod expand_laws;
pub mod fingerprint_laws;
pub mod hits;
pub mod incremental;
pub mod incremental_laws;
pub mod index;
pub mod index_laws;
pub mod indexer;
pub mod json;
pub mod json_text;
pub mod language;
pub mod link_laws;
pub mod load;
pub mod lookup;
pub mod mcp;
pub mod names;
pub mod naming_laws;
pub mod parser;
pub mod parser_laws;
pub mod path_laws;
pub mod paths;
pub mod queries;
pub mod query_laws;
pub mod ref_pass;
pub mod reference_laws;
pub mod reindex;
pub mod reindex_laws;
pub mod report_laws;
pub mod responses;
pub mod rows;
pub mod save;
pub mod schema;
pub mod scope;
pub mod server;
pub mod server_laws;
pub mod snippet;
pub mod source;
pub mod stream;
pub mod stream_laws;
pub mod stream_order;
pub mod syntax;
pub mod text;
pub mod tool_args;
pub mod tool_laws;
pub mod tools;
pub mod tree_laws;
pub mod types;

pub use crate::index::Index;
pub use crate::indexer::{IndexMetrics, IndexedRun, Indexer, IndexerBuilder};
pub use crate::language::{Language, ReferenceMode};

verus! {

} // verus!
