pub mod build_laws;
pub mod build_step;
pub mod builder;
pub mod bytes;
pub mod codec;
pub mod decoder;
pub mod encoder;
pub mod error;
pub mod format;
pub mod fst;
pub mod iter_laws;
pub mod iter_steps;
pub mod laws;
pub mod node_laws;
pub mod reading;
pub mod state;
pub mod trie_laws;
pub mod trie_step;
pub mod walk_laws;

pub use builder::Builder;
pub use bytes::Bytes;
pub use bytes::Clear;
pub use fst::FstIterator;
pub use fst::FST;
