pub mod be_bytes;
pub mod chunk;
pub mod chunk_type;
pub mod commands;
pub mod errors;
pub mod png;
pub mod text;
