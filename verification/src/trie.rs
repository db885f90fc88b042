//! The trie that is changed in place.
//!
//! Every node owns the chain after it and the forest below it. Storing or
//! counting a key walks down from the root and changes the nodes on its way:
//! it cuts a label where the key leaves it, and hangs a new node where the
//! key goes on and the trie does not.

use vstd::prelude::*;
use vstd::slice::slice_to_vec;
use crate::counting::{
    counted_once, lemma_count_counted, lemma_count_once, lemma_count_value,
    lemma_count_well_formed,
};
use crate::forest::Forest;
use crate::insertion::{
    lemma_insert_compact, lemma_insert_entries, lemma_insert_then_lookup,
    lemma_insert_well_formed,
};
use crate::prefix::common_prefix;
use crate::traversal::lemma_lookup_exact;

verus! {

/// One edge of a trie, with the chain that follows it and the forest below it.
#[derive(Debug)]
pub struct TrieNode<T> {
    label: Vec<u32>,
    value: Option<T>,
    child: Option<Box<TrieNode<T>>>,
    sibling: Option<Box<TrieNode<T>>>,
}

/// A trie from sequences of `u32` to values of `T`.
#[derive(Debug)]
pub struct Trie<T> {
    root: Option<Box<TrieNode<T>>>,
}

impl<T> View for TrieNode<T> {
    type V = Forest<T>;

    /// The forest that starts at this node.
    closed spec fn view(&self) -> Forest<T> {
        self.model()
    }
}

impl<T> View for Trie<T> {
    type V = Forest<T>;

    /// The forest of this trie.
    closed spec fn view(&self) -> Forest<T> {
        TrieNode::link_model(self.root)
    }
}

impl<T> TrieNode<T> {
    spec fn model(self) -> Forest<T>
        decreases self,
    {
        Forest::Fork {
            label: self.label@,
            value: self.value,
            child: Box::new(Self::link_model(self.child)),
            sibling: Box::new(Self::link_model(self.sibling)),
        }
    }

    spec fn link_model(link: Option<Box<TrieNode<T>>>) -> Forest<T>
        decreases link,
    {
        match link {
            None => Forest::Empty,
            Some(node) => node.model(),
        }
    }

    /// The run of key elements on this edge.
    pub fn label(&self) -> (label: &[u32])
        ensures
            self@ is Fork,
            label@ == self@.label(),
    {
        self.label.as_slice()
    }

    /// The value stored at this node, if it is more than a branching point.
    pub fn value(&self) -> (value: Option<&T>)
        ensures
            match value {
                Some(v) => self@.value() == Some(*v),
                None => self@.value() is None,
            },
    {
        self.value.as_ref()
    }

    /// The first of the edges that extend this one.
    pub fn child(&self) -> (child: Option<&TrieNode<T>>)
        ensures
            match child {
                Some(node) => node@ == self@.child(),
                None => self@.child() is Empty,
            },
    {
        match &self.child {
            Some(node) => Some(&**node),
            None => None,
        }
    }

    /// The next alternative to this edge.
    pub fn sibling(&self) -> (sibling: Option<&TrieNode<T>>)
        ensures
            match sibling {
                Some(node) => node@ == self@.sibling(),
                None => self@.sibling() is Empty,
            },
    {
        match &self.sibling {
            Some(node) => Some(&**node),
            None => None,
        }
    }

    /// A new node for `rest` that holds `value`; nothing where `rest` is empty.
    fn hang(rest: &[u32], value: T) -> (link: Option<Box<TrieNode<T>>>)
        ensures
            Self::link_model(link) == Forest::hung(rest@, value),
    {
        if rest.len() == 0 {
            None
        } else {
            let label = slice_to_vec(rest);
            let leaf = TrieNode { label, value: Some(value), child: None, sibling: None };
            assert(leaf@ == Forest::leaf(rest@, value));
            Some(Box::new(leaf))
        }
    }

    /// The node whose accumulated label is exactly `key`, in the forest
    /// behind `link`.
    fn find_in<'a>(link: &'a Option<Box<TrieNode<T>>>, key: &[u32]) -> (found: Option<
        &'a TrieNode<T>,
    >)
        ensures
            match found {
                Some(node) => Self::link_model(*link).lookup(key@) == Some(node@),
                None => Self::link_model(*link).lookup(key@) is None,
            },
        decreases *link, 0nat,
    {
        match link {
            Some(node) => node.find(key),
            None => None,
        }
    }

    /// The node whose accumulated label is exactly `key`, searched from this
    /// node through its chain and the forest below.
    fn find(&self, key: &[u32]) -> (found: Option<&TrieNode<T>>)
        ensures
            match found {
                Some(node) => self@.lookup(key@) == Some(node@),
                None => self@.lookup(key@) is None,
            },
        decreases self, 1nat,
    {
        let prefix = common_prefix(self.label.as_slice(), key);
        if prefix == 0 {
            Self::find_in(&self.sibling, key)
        } else if prefix < self.label.len() {
            None
        } else if prefix < key.len() {
            Self::find_in(&self.child, &key[prefix..key.len()])
        } else {
            Some(self)
        }
    }

    /// Cuts the label after `at` elements. This node keeps the front and
    /// loses its value. A new node below it takes the back, together with
    /// the value and the children, and gets `beside` for the chain after it.
    fn split(&mut self, at: usize, beside: Option<Box<TrieNode<T>>>)
        requires
            0 < at < old(self)@.label().len(),
        ensures
            final(self)@ == old(self)@.cut(at as int, None, Self::link_model(beside)),
    {
        let label = self.label.split_off(at);
        let value = self.value.take();
        let child = self.child.take();
        let back = TrieNode { label, value, child, sibling: beside };
        assert(back@ == old(self)@.back(at as int, Self::link_model(beside)));
        self.child = Some(Box::new(back));
    }

    /// Stores `value` under `key` in the forest behind `link`.
    fn insert_into(link: &mut Option<Box<TrieNode<T>>>, key: &[u32], value: T)
        requires
            key@.len() > 0,
        ensures
            Self::link_model(*final(link)) == Self::link_model(*old(link)).insert(key@, value),
        decreases *old(link), 0nat,
    {
        match link {
            Some(node) => node.insert(key, value),
            None => {
                *link = Self::hang(key, value);
            },
        }
    }

    /// Stores `value` under `key` in the forest that starts at this node.
    fn insert(&mut self, key: &[u32], value: T)
        requires
            key@.len() > 0,
        ensures
            final(self)@ == old(self)@.insert(key@, value),
        decreases *old(self), 1nat,
    {
        let prefix = common_prefix(self.label.as_slice(), key);
        if prefix == 0 {
            Self::insert_into(&mut self.sibling, key, value);
        } else if prefix < self.label.len() {
            if prefix < key.len() {
                self.split(prefix, Self::hang(&key[prefix..key.len()], value));
            } else {
                self.split(prefix, None);
                self.value = Some(value);
            }
        } else if prefix < key.len() {
            Self::insert_into(&mut self.child, &key[prefix..key.len()], value);
        } else {
            self.value = Some(value);
        }
    }
}

impl TrieNode<u32> {
    /// Counts `key` in the forest behind `link`.
    fn count_into(link: &mut Option<Box<TrieNode<u32>>>, key: &[u32])
        requires
            key@.len() > 0,
            Self::link_model(*old(link)).countable(key@),
        ensures
            Self::link_model(*final(link)) == Self::link_model(*old(link)).count(key@),
        decreases *old(link), 0nat,
    {
        match link {
            Some(node) => node.count(key),
            None => {
                *link = Self::hang(key, 1u32);
            },
        }
    }

    /// Counts `key` in the forest that starts at this node.
    fn count(&mut self, key: &[u32])
        requires
            key@.len() > 0,
            old(self)@.countable(key@),
        ensures
            final(self)@ == old(self)@.count(key@),
        decreases *old(self), 1nat,
    {
        let prefix = common_prefix(self.label.as_slice(), key);
        if prefix == 0 {
            Self::count_into(&mut self.sibling, key);
        } else {
            let count = self.value.unwrap() + 1;
            if prefix < self.label.len() {
                self.split(prefix, Self::hang(&key[prefix..key.len()], 1u32));
            } else if prefix < key.len() {
                Self::count_into(&mut self.child, &key[prefix..key.len()]);
            }
            self.value = Some(count);
        }
    }
}

impl<T> Trie<T> {
    /// The empty trie.
    pub fn new() -> (trie: Trie<T>)
        ensures
            trie@ is Empty,
    {
        Trie { root: None }
    }

    /// The first node of the trie, if it has one.
    pub fn root(&self) -> (root: Option<&TrieNode<T>>)
        ensures
            match root {
                Some(node) => node@ == self@,
                None => self@ is Empty,
            },
    {
        match &self.root {
            Some(node) => Some(&**node),
            None => None,
        }
    }

    /// The node whose accumulated label is exactly `key`.
    ///
    /// A key that ends inside a label, or that goes on where the trie has
    /// nothing below, finds no node. The empty key finds no node.
    pub fn find(&self, key: &[u32]) -> (found: Option<&TrieNode<T>>)
        ensures
            match found {
                Some(node) => self@.lookup(key@) == Some(node@),
                None => self@.lookup(key@) is None,
            },
            self@.well_formed() ==> (found is Some <==> self@.has_path(key@)),
    {
        proof {
            if self@.well_formed() {
                lemma_lookup_exact(self@, key@);
            }
        }
        TrieNode::find_in(&self.root, key)
    }

    /// Stores `value` under `key`; a value that was there before is replaced.
    /// The empty key stores nothing.
    pub fn insert(&mut self, key: &[u32], value: T)
        ensures
            final(self)@ == old(self)@.insert(key@, value),
            old(self)@.well_formed() ==> final(self)@.well_formed(),
            old(self)@.compact() ==> final(self)@.compact(),
            key@.len() > 0 ==> final(self)@.value_at(key@) == Some(value),
            key@.len() > 0 ==> final(self)@.entries() == old(self)@.entries().insert(key@, value),
    {
        proof {
            if self@.well_formed() {
                lemma_insert_well_formed(self@, key@, value);
            }
            if self@.compact() {
                lemma_insert_compact(self@, key@, value);
            }
            if key@.len() > 0 {
                lemma_insert_then_lookup(self@, key@, value);
                lemma_insert_entries(self@, key@, value);
            }
        }
        if key.len() > 0 {
            TrieNode::insert_into(&mut self.root, key, value);
        }
    }
}

impl Trie<u32> {
    /// Counts one more occurrence of `key`.
    ///
    /// Every node that the key runs through, and the node where it ends, is
    /// counted up by one; a node that is created starts at one. Where a label
    /// is cut, the node that takes the back of it keeps the count, and the
    /// node that keeps the front has that count plus one. The empty key
    /// counts nothing.
    pub fn insert_and_count(&mut self, key: &[u32])
        requires
            old(self)@.countable(key@),
        ensures
            final(self)@ == old(self)@.count(key@),
            old(self)@.well_formed() ==> final(self)@.well_formed(),
            old(self)@.counted() ==> final(self)@.counted(),
            key@.len() > 0 ==> {
                &&& final(self)@.value_at(key@) == Some((old(self)@.weight(key@) + 1) as u32)
                &&& counted_once(old(self)@, final(self)@, key@)
            },
    {
        proof {
            if self@.well_formed() {
                lemma_count_well_formed(self@, key@);
            }
            if self@.counted() {
                lemma_count_counted(self@, key@);
            }
            if key@.len() > 0 {
                lemma_count_value(self@, key@);
                lemma_count_once(self@, key@);
            }
        }
        if key.len() > 0 {
            TrieNode::count_into(&mut self.root, key);
        }
    }
}

} // verus!
