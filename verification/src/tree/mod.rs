//! The per-field ordered index tree and the whole-store index.
//!
//! Every indexable field of a registered type owns one binary search tree
//! with one node per distinct value; records sharing a value share that
//! node's group.  The store-wide [`Tree`] maps record ids to their encoded
//! records and keeps one such field tree per indexed field id.

pub mod action;
pub mod comparision;
pub mod node;
pub mod searcher;
pub mod store_tree;

pub use node::Node;
pub use node::Group;
pub use node::Groups;
pub use action::SearchAction;
pub use comparision::Cmp;
pub use comparision::Comparision;
pub use store_tree::Tree;
pub use store_tree::Item;
pub use store_tree::FieldTree;
pub use store_tree::IndexPair;
pub use searcher::Task;
pub use searcher::Sub;
