//! Compiles a folder of extended-syntax pattern definitions into named
//! extractors. Each pattern yields records whose fields are its named groups.
pub mod engine;
pub mod ident;
pub mod loader;
pub mod pattern;
pub mod record;
pub mod registry;
