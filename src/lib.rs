//! Named look-up trees: an arena of nodes addressed by integer handles,
//! a name index on top of it, and one traversal routine that yields
//! depth-first or breadth-first order depending on the buffer it is given.
pub mod error;
pub mod forest;
pub mod laws;
pub mod lu_tree;
pub mod named_lu_tree;
pub mod parse;
pub mod search_buffer;
pub mod walk;

pub use error::TreeError;
pub use lu_tree::LuTree;
pub use named_lu_tree::NamedLuTree;
pub use search_buffer::{Discipline, SearchBuffer};
