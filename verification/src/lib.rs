//! Radix forests: compressed tries over sequences of `u32`.
//!
//! Keys that start alike share the edges that spell their common front, and
//! every edge carries a run of key elements instead of a single one. The
//! crate holds one such structure in two forms, and the laws that both obey.
//!
//! * [`trie::Trie`] is changed in place. It stores a value under a key, or
//!   counts how often a key was given.
//! * [`tree::Tree`] is persistent. Counting a key gives a new snapshot that
//!   shares what it can with the old one, and every snapshot comes with an
//!   [`index::ElementIndex`] that leads from a key element to the nodes whose
//!   label holds it.
//!
//! Both are proved against one model, [`forest::Forest`]: what a search
//! finds, what storing and counting build, and what that means for the keys
//! ([`traversal`], [`insertion`], [`counting`], [`identity`]).

pub mod counting;
pub mod forest;
pub mod identity;
pub mod index;
pub mod insertion;
pub mod node;
pub mod prefix;
pub mod traversal;
pub mod tree;
pub mod trie;
