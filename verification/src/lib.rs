//! The resumable part of a streaming XML parser: the state that the parser carries between two
//! chunks of a document, the checkpoints that save it, and the session that a host drives.

pub mod sax;
pub mod session;
