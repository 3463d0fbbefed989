//! A storage-agnostic spatial index: a binary tree over multi-dimensional
//! regions that cycles through the axes level by level, with insertion and a
//! range search that prunes subtrees by the split value of each node.
//!
//! Nodes live in a [`NodeArena`] and are known by index. The tree algorithms
//! never touch the arena: they read and connect nodes through a
//! [`NodeLinker`], so the same algorithms serve any storage that implements
//! the trait. [`InMemoryLinker`] is the linker over an arena.
//!
//! Coordinates are integers; a caller with fractional coordinates picks a
//! step and counts in steps.
//!
//! ```text
//! let mut arena = NodeArena::new();
//! let first = arena.allocate(BoundingBox::new(10, 10, 20, 20), "location1");
//! let second = arena.allocate(BoundingBox::new(30, 30, 40, 40), "location2");
//!
//! let mut linker = InMemoryLinker::new(&mut arena);
//! let root = insert_node(&mut linker, None, first, 0);
//! insert_node(&mut linker, Some(root), second, 0);
//!
//! let query = BoundingBox::new(5, 5, 15, 15);
//! let found = spatial_search(&linker, Some(root), &query, 0);
//! ```
//!
//! The tree is not balanced: the order of insertion decides its shape, and
//! sorted input gives a chain.
//!
//! The modules: [`spatial`] has the region traits and the bounding box,
//! [`storage`] the arena and the linkers, [`search`] insertion and search,
//! [`shape`] what it means for links to form a tree, and [`laws`] what is
//! proved of trees that are built by insertion and read by search.

pub mod laws;
pub mod search;
pub mod shape;
pub mod spatial;
pub mod storage;
pub mod tantivy_linker;

pub use search::{insert_node, spatial_search};
pub use spatial::{BoundingBox, Point, SpatialPoint};
pub use storage::{InMemoryLinker, NodeArena, NodeLinker};
