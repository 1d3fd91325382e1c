//! A feed of channels and their items, kept in a content-addressed store of immutable
//! records joined by tagged edges. Channels are found from a directory anchor; each
//! channel's items form a chain from its `head` edge, newest first.
pub mod anchor;
pub mod chain;
pub mod codec;
pub mod directory;
pub mod entry;
pub mod store;
