//! Views over collections whose size changes.

pub mod btree_map;
pub mod entries;
pub mod iter;
pub mod ordered;
pub mod slice;

pub use btree_map::btree_map;
pub use iter::iter;
pub use slice::slice;
