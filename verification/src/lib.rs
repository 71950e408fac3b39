pub mod chat_send;
pub mod crate_files;
pub mod manifest;
pub mod manifest_edits;
pub mod named;
pub mod naming;
pub mod signature;
pub mod strings;
pub mod stubs;
pub mod text;
pub mod text_laws;
pub mod toml_tree;
pub mod wit_types;
pub mod world_laws;
pub mod worlds;
