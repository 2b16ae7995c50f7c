//! Core of an outline-style block editor: a tree of text blocks that can be
//! split, merged, indented and outdented through an action-bubbling protocol,
//! with edit focus following the mutation.

pub mod block;
pub mod laws;
pub mod protocol;
pub mod tree;

pub use block::Block;
pub use block::BlockAction;
pub use block::BlockModel;
pub use protocol::Outcome;
pub use tree::BlockTree;
