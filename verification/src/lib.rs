//! Resolves addresses inside a WebAssembly module to positions in the sources
//! it was compiled from, and back, from the debugging information embedded in
//! the module.

pub mod dwarf;
pub mod error;
pub mod files;
pub mod index;
pub mod leb128;
pub mod lines;
pub mod location;
pub mod path;
pub mod resolver;
pub mod text;
pub mod wasm;

pub use files::FileEntries;
pub use resolver::Resolver;
