//! The persistent counting trie with its element index.
//!
//! A tree is a snapshot. Counting a key gives a new snapshot and leaves the
//! one it started from as it was; the two share every node that the key's
//! path does not touch.

use std::rc::Rc;
use vstd::prelude::*;
use crate::counting::{
    counted_once, lemma_count_counted, lemma_count_once, lemma_count_value,
    lemma_count_well_formed,
};
use crate::forest::Forest;
use crate::identity::{
    lemma_alike_created, lemma_listed_extends, lemma_listed_lookup, lemma_tag_distinct,
    lemma_tag_listed,
};
use crate::index::{ElementIndex, enroll, enroll_all, enrolled};
use crate::node::{Node, share_link};
use crate::traversal::lemma_lookup_exact;

verus! {

/// A snapshot of a persistent counting trie.
#[derive(Debug)]
pub struct Tree {
    root: Option<Rc<Node<u32>>>,
    index: ElementIndex,
}

impl View for Tree {
    type V = Forest<u32>;

    /// The forest of this snapshot, with the counts of its nodes.
    closed spec fn view(&self) -> Forest<u32> {
        Node::forest_of(self.root)
    }
}

impl Tree {
    /// The forest of this snapshot, with the identifiers of its nodes in
    /// place of their counts.
    pub closed spec fn tags(&self) -> Forest<u64> {
        Node::tags_of(self.root)
    }

    /// The element index of this snapshot.
    pub closed spec fn roster(&self) -> ElementIndex {
        self.index
    }

    /// The index and the identifiers fit the nodes: the index lists every
    /// node of this snapshot under every element of the node's label, no two
    /// nodes have the same identifier, and every identifier in use was issued
    /// by the index.
    pub open spec fn consistent(&self) -> bool {
        &&& self.tags().listed(self.roster()@)
        &&& self.tags().distinct()
        &&& self.tags().below(self.roster().issued())
    }

    /// The counts and the identifiers stand on the same edges.
    pub proof fn lemma_alike(&self)
        ensures
            self@.alike(self.tags()),
    {
        if let Some(node) = self.root {
            node.lemma_alike();
        }
    }

    /// The empty tree, with an empty index.
    pub fn new() -> (tree: Tree)
        ensures
            tree@ is Empty,
            tree.tags() is Empty,
            tree.roster()@ == Map::<u32, Set<u64>>::empty(),
            tree.roster().issued() == 0,
            tree.consistent(),
    {
        Tree { root: None, index: ElementIndex::new() }
    }

    /// The first node of the tree, if it has one.
    pub fn root(&self) -> (root: Option<&Node<u32>>)
        ensures
            match root {
                Some(node) => node@ == self@ && node.tags() == self.tags(),
                None => self@ is Empty && self.tags() is Empty,
            },
    {
        match &self.root {
            Some(node) => Some(&**node),
            None => None,
        }
    }

    /// The element index of this snapshot.
    pub fn index(&self) -> (index: &ElementIndex)
        ensures
            *index == self.roster(),
    {
        &self.index
    }

    /// Lists `node` in the index under every element of its label.
    pub fn index_node(&mut self, node: &Node<u32>)
        ensures
            final(self)@ == old(self)@,
            final(self).tags() == old(self).tags(),
            final(self).roster()@ == enroll(old(self).roster()@, node@.label(), node.ident()),
            final(self).roster().issued() == old(self).roster().issued(),
            old(self).consistent() ==> final(self).consistent(),
    {
        let id = node.id();
        self.index.enroll(node.label(), id);
        proof {
            if old(self).consistent() {
                lemma_listed_extends(self.tags(), old(self).index@, self.index@);
            }
        }
    }

    /// The node whose accumulated label is exactly `key`.
    ///
    /// A key that ends inside a label, or that goes on where the tree has
    /// nothing below, finds no node. The empty key finds no node.
    pub fn find(&self, key: &[u32]) -> (found: Option<&Node<u32>>)
        ensures
            match found {
                Some(node) => {
                    &&& self@.lookup(key@) == Some(node@)
                    &&& self.tags().lookup(key@) == Some(node.tags())
                },
                None => self@.lookup(key@) is None && self.tags().lookup(key@) is None,
            },
            self@.well_formed() ==> (found is Some <==> self@.has_path(key@)),
            self.consistent() ==> (found matches Some(node) ==> enrolled(
                self.roster()@,
                node@.label(),
                node.ident(),
            )),
    {
        let found = Node::find_in(&self.root, key);
        proof {
            if self@.well_formed() {
                lemma_lookup_exact(self@, key@);
            }
            if let Some(node) = found {
                node.lemma_alike();
                if self.consistent() {
                    lemma_listed_lookup(self.tags(), self.index@, key@);
                }
            }
        }
        found
    }

    /// The snapshot in which one more occurrence of `key` is counted.
    ///
    /// This snapshot stays as it is: whatever was found in it before is found
    /// in it afterwards. The new snapshot shares every node that the path of
    /// the key does not touch, and starts with a copy of this snapshot's
    /// index. The nodes that counting creates get the next identifiers and
    /// are listed in that copy; every other node keeps its identifier. The
    /// empty key gives a snapshot that is like this one.
    pub fn append(&self, key: &[u32]) -> (next: Tree)
        requires
            self@.countable(key@),
            self.roster().issued() + self@.created(key@).len() <= u64::MAX,
        ensures
            next@ == self@.count(key@),
            next.tags() == self.tags().tag(key@, self.roster().issued()),
            next.roster()@ == enroll_all(
                self.roster()@,
                self@.created(key@),
                self.roster().issued(),
            ),
            next.roster().issued() == self.roster().issued() + self@.created(key@).len(),
            self.consistent() ==> next.consistent(),
            self@.well_formed() ==> next@.well_formed(),
            self@.counted() ==> next@.counted(),
            key@.len() > 0 ==> {
                &&& next@.value_at(key@) == Some((self@.weight(key@) + 1) as u32)
                &&& counted_once(self@, next@, key@)
            },
    {
        proof {
            let first = self.index.issued();
            self.lemma_alike();
            lemma_alike_created(self@, self.tags(), key@);
            if self.consistent() {
                lemma_tag_listed(self.tags(), key@, first, self.index@);
                lemma_tag_distinct(self.tags(), key@, first);
            }
            if self@.well_formed() {
                lemma_count_well_formed(self@, key@);
            }
            if self@.counted() {
                lemma_count_counted(self@, key@);
            }
            if key@.len() > 0 {
                lemma_count_value(self@, key@);
                lemma_count_once(self@, key@);
            }
        }
        let mut index = self.index.snapshot();
        let root = if key.len() == 0 {
            share_link(&self.root)
        } else {
            Node::grow(&self.root, key, &mut index)
        };
        Tree { root, index }
    }
}

} // verus!
