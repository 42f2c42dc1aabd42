pub mod assoc;
pub mod digest;
pub mod cache;
pub mod codec;
pub mod dependency_resolver;
pub mod errors;
pub mod extract;
pub mod file_hashes;
pub mod indexer;
pub mod language_config;
pub mod name_map;
pub mod rust_indexer;
pub mod symbol_store;
pub mod strutil;
pub mod symbol;
pub mod syntax;
pub mod ts;
