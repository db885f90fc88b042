//! What holds of the search for a key.

use vstd::prelude::*;
use crate::forest::Forest;
use crate::prefix::{common_prefix_len, is_prefix, lemma_common_prefix_len};

verus! {

impl<V> Forest<V> {
    /// Some edge of the forest has exactly `key` as its accumulated label:
    /// the labels from the top of the forest down to that edge, one after the
    /// other, spell `key`.
    pub open spec fn has_path(self, key: Seq<u32>) -> bool
        decreases self,
    {
        match self {
            Forest::Empty => false,
            Forest::Fork { label, child, sibling, .. } => {
                ||| key == label
                ||| is_prefix(label, key) && child.has_path(key.skip(label.len() as int))
                ||| sibling.has_path(key)
            },
        }
    }
}

/// The empty key finds nothing.
pub proof fn lemma_lookup_empty_key<V>(f: Forest<V>)
    ensures
        f.lookup(Seq::<u32>::empty()) is None,
    decreases f,
{
    if let Forest::Fork { sibling, .. } = f {
        lemma_lookup_empty_key(*sibling);
    }
}

/// What the traversal finds is an edge whose label is the end of the key.
pub proof fn lemma_lookup_label<V>(f: Forest<V>, key: Seq<u32>)
    requires
        f.lookup(key) is Some,
    ensures
        f.lookup(key).unwrap() is Fork,
        f.lookup(key).unwrap().label().len() <= key.len(),
        f.lookup(key).unwrap().label() == key.skip(
            key.len() - f.lookup(key).unwrap().label().len(),
        ),
    decreases f,
{
    if let Forest::Fork { label, child, sibling, .. } = f {
        let p = common_prefix_len(label, key);
        lemma_common_prefix_len(label, key);
        if p == 0 {
            lemma_lookup_label(*sibling, key);
        } else if p != key.len() {
            lemma_lookup_label(*child, key.skip(p as int));
        }
    }
}

/// Every path of a well-formed chain starts with the first element of one
/// of the chain's labels, so it shares nothing with a label that the chain is
/// apart from.
pub proof fn lemma_paths_apart<V>(f: Forest<V>, label: Seq<u32>, key: Seq<u32>)
    requires
        f.well_formed(),
        f.apart_from(label),
        f.has_path(key),
    ensures
        common_prefix_len(label, key) == 0,
    decreases f,
{
    if let Forest::Fork { label: own, sibling, .. } = f {
        if key != own && !is_prefix(own, key) {
            lemma_paths_apart(*sibling, label, key);
        }
    }
}

/// Lookup is exact. In a well-formed forest the traversal finds a node for
/// `key` exactly when some node's accumulated label is `key`: not for a key
/// that ends inside a label, and not for one that goes on past the last node
/// on its way.
pub proof fn lemma_lookup_exact<V>(f: Forest<V>, key: Seq<u32>)
    requires
        f.well_formed(),
    ensures
        f.lookup(key) is Some <==> f.has_path(key),
    decreases f,
{
    if let Forest::Fork { label, child, sibling, .. } = f {
        let p = common_prefix_len(label, key);
        lemma_common_prefix_len(label, key);
        lemma_lookup_exact(*sibling, key);
        if sibling.has_path(key) {
            lemma_paths_apart(*sibling, label, key);
        }
        if key != label && is_prefix(label, key) {
            lemma_lookup_exact(*child, key.skip(label.len() as int));
        }
        if p == label.len() && p == key.len() {
            assert(key =~= label);
        }
    }
}

} // verus!
