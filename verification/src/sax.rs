//! The tokens a streaming XML parser has under construction, the state it carries from one
//! chunk of a document to the next, and the checkpoint format that saves that state.

pub mod checkpoint;
pub mod events;
pub mod format;
pub mod laws;
pub mod parser;
pub mod record;
pub mod tag;
pub mod wire;
