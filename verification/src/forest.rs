//! The mathematical model shared by every trie in this crate.
//!
//! A trie is a chain of sibling edges. Each edge carries a label (a run of
//! key elements), an optional value, the forest of edges that extend it, and
//! the rest of the chain. The search for a key is defined here; storing and
//! counting are defined on this model in their own modules, and the
//! executable tries are proved to compute exactly those functions.

use vstd::prelude::*;
use crate::prefix::{common_prefix_len, lemma_common_prefix_len_symmetric};

verus! {

/// A chain of sibling edges, each with the forest below it.
pub enum Forest<V> {
    /// No edge at all.
    Empty,
    /// One edge, the forest that extends it, and the alternatives that follow it.
    Fork { label: Seq<u32>, value: Option<V>, child: Box<Forest<V>>, sibling: Box<Forest<V>> },
}

impl<V> Forest<V> {
    /// The label of the first edge.
    pub open spec fn label(self) -> Seq<u32>
        recommends
            self is Fork,
    {
        self->label
    }

    /// The value of the first edge.
    pub open spec fn value(self) -> Option<V>
        recommends
            self is Fork,
    {
        self->value
    }

    /// The forest below the first edge.
    pub open spec fn child(self) -> Forest<V>
        recommends
            self is Fork,
    {
        *self->child
    }

    /// The chain after the first edge.
    pub open spec fn sibling(self) -> Forest<V>
        recommends
            self is Fork,
    {
        *self->sibling
    }

    /// A single edge that carries `value` and has nothing below or beside it.
    pub open spec fn leaf(label: Seq<u32>, value: V) -> Forest<V> {
        Forest::Fork {
            label,
            value: Some(value),
            child: Box::new(Forest::Empty),
            sibling: Box::new(Forest::Empty),
        }
    }

    /// The edge whose accumulated label is exactly `key`, as the traversal
    /// finds it: a label that shares nothing with the key sends the search to
    /// the next sibling, a label that the key runs through sends it below, and
    /// a label that the key leaves halfway ends it.
    pub open spec fn lookup(self, key: Seq<u32>) -> Option<Forest<V>>
        decreases self,
    {
        match self {
            Forest::Empty => None,
            Forest::Fork { label, value, child, sibling } => {
                let p = common_prefix_len(label, key);
                if p == 0 {
                    sibling.lookup(key)
                } else if p == label.len() {
                    if p == key.len() {
                        Some(self)
                    } else {
                        child.lookup(key.skip(p as int))
                    }
                } else {
                    None
                }
            },
        }
    }

    /// The value stored under exactly `key`, if there is one.
    pub open spec fn value_at(self, key: Seq<u32>) -> Option<V> {
        match self.lookup(key) {
            Some(Forest::Fork { value, .. }) => value,
            _ => None,
        }
    }

    /// The labels of this chain, from the first edge on.
    pub open spec fn chain(self) -> Seq<Seq<u32>>
        decreases self,
    {
        match self {
            Forest::Empty => seq![],
            Forest::Fork { label, sibling, .. } => seq![label] + sibling.chain(),
        }
    }

    /// No label in this chain has a common prefix with `label`.
    pub open spec fn apart_from(self, label: Seq<u32>) -> bool
        decreases self,
    {
        match self {
            Forest::Empty => true,
            Forest::Fork { label: other, sibling, .. } => {
                &&& common_prefix_len(label, other) == 0
                &&& sibling.apart_from(label)
            },
        }
    }

    /// Every label is non-empty, and no two labels of one sibling chain have
    /// a common prefix.
    pub open spec fn well_formed(self) -> bool
        decreases self,
    {
        match self {
            Forest::Empty => true,
            Forest::Fork { label, child, sibling, .. } => {
                &&& label.len() > 0
                &&& sibling.apart_from(label)
                &&& child.well_formed()
                &&& sibling.well_formed()
            },
        }
    }

    /// The first edge with `sibling` for the chain after it.
    pub open spec fn with_sibling(self, sibling: Forest<V>) -> Forest<V>
        recommends
            self is Fork,
    {
        Forest::Fork {
            label: self.label(),
            value: self.value(),
            child: Box::new(self.child()),
            sibling: Box::new(sibling),
        }
    }

    /// The first edge with `child` for the forest below it.
    pub open spec fn with_child(self, child: Forest<V>) -> Forest<V>
        recommends
            self is Fork,
    {
        Forest::Fork {
            label: self.label(),
            value: self.value(),
            child: Box::new(child),
            sibling: Box::new(self.sibling()),
        }
    }

    /// The first edge with `value` for what it holds.
    pub open spec fn with_value(self, value: Option<V>) -> Forest<V>
        recommends
            self is Fork,
    {
        Forest::Fork {
            label: self.label(),
            value,
            child: Box::new(self.child()),
            sibling: Box::new(self.sibling()),
        }
    }

    /// An edge for `rest` that holds `value`; nothing where `rest` is empty.
    pub open spec fn hung(rest: Seq<u32>, value: V) -> Forest<V> {
        if rest.len() == 0 {
            Forest::Empty
        } else {
            Forest::leaf(rest, value)
        }
    }

    /// The back of the first edge: what is left of its label after `at`
    /// elements, with what the edge holds and the forest below it, and with
    /// `beside` for the chain after it.
    pub open spec fn back(self, at: int, beside: Forest<V>) -> Forest<V>
        recommends
            self is Fork,
            0 < at < self.label().len(),
    {
        Forest::Fork {
            label: self.label().skip(at),
            value: self.value(),
            child: Box::new(self.child()),
            sibling: Box::new(beside),
        }
    }

    /// The first edge cut in two after `at` elements of its label. The front
    /// stays in the chain and holds `value`. The back moves below it and has
    /// `beside` for the chain after it.
    pub open spec fn cut(self, at: int, value: Option<V>, beside: Forest<V>) -> Forest<V>
        recommends
            self is Fork,
            0 < at < self.label().len(),
    {
        Forest::Fork {
            label: self.label().take(at),
            value,
            child: Box::new(self.back(at, beside)),
            sibling: Box::new(self.sibling()),
        }
    }
}

/// A chain that is apart from a label is apart from every non-empty label
/// with the same first element.
pub proof fn lemma_apart_by_first<V>(f: Forest<V>, label: Seq<u32>, other: Seq<u32>)
    requires
        f.apart_from(label),
        label.len() > 0,
        other.len() > 0,
        other[0] == label[0],
    ensures
        f.apart_from(other),
    decreases f,
{
    if let Forest::Fork { sibling, .. } = f {
        lemma_apart_by_first(*sibling, label, other);
    }
}

/// A label that a chain is apart from has no common prefix with any label
/// of the chain.
pub proof fn lemma_apart_from_each<V>(f: Forest<V>, label: Seq<u32>, i: int)
    requires
        f.apart_from(label),
        0 <= i < f.chain().len(),
    ensures
        common_prefix_len(label, f.chain()[i]) == 0,
    decreases f,
{
    if i > 0 {
        lemma_apart_from_each(f.sibling(), label, i - 1);
    }
}

/// In a well-formed forest, no two labels of one sibling chain have a common
/// prefix.
pub proof fn lemma_siblings_apart<V>(f: Forest<V>, i: int, j: int)
    requires
        f.well_formed(),
        0 <= i < j < f.chain().len(),
    ensures
        common_prefix_len(f.chain()[i], f.chain()[j]) == 0,
        common_prefix_len(f.chain()[j], f.chain()[i]) == 0,
    decreases f,
{
    if i == 0 {
        lemma_apart_from_each(f.sibling(), f.label(), j - 1);
    } else {
        lemma_siblings_apart(f.sibling(), i - 1, j - 1);
    }
    lemma_common_prefix_len_symmetric(f.chain()[i], f.chain()[j]);
}

} // verus!
