//! Storing on the model, and what holds of it.

use vstd::prelude::*;
use crate::forest::{Forest, lemma_apart_by_first};
use crate::prefix::{
    common_prefix_len, lemma_common_prefix_len, lemma_common_prefix_len_skip,
    lemma_common_prefix_len_take,
};

verus! {

impl<V> Forest<V> {
    /// The forest after `key` was stored with `value`.
    ///
    /// The search for the key goes as in `lookup`. Where it ends with nothing
    /// found, a new edge is hung there for what is left of the key. Where the
    /// key leaves a label halfway, or ends inside it, the label is cut at
    /// that point: the front becomes a branching point without a value, or
    /// takes the value where the key ends there. The empty key changes
    /// nothing.
    pub open spec fn insert(self, key: Seq<u32>, value: V) -> Forest<V>
        decreases self,
    {
        if key.len() == 0 {
            self
        } else if self is Empty {
            Forest::leaf(key, value)
        } else {
            let p = common_prefix_len(self.label(), key) as int;
            if p == 0 {
                self.with_sibling(self.sibling().insert(key, value))
            } else if p < self.label().len() {
                let held = if p < key.len() {
                    None
                } else {
                    Some(value)
                };
                self.cut(p, held, Forest::hung(key.skip(p), value))
            } else if p < key.len() {
                self.with_child(self.child().insert(key.skip(p), value))
            } else {
                self.with_value(Some(value))
            }
        }
    }

    /// No edge is there without need: an edge without a value is a branching
    /// point, with at least two edges below it.
    pub open spec fn compact(self) -> bool
        decreases self,
    {
        match self {
            Forest::Empty => true,
            Forest::Fork { value, child, sibling, .. } => {
                &&& value is None ==> *child is Fork && child.sibling() is Fork
                &&& child.compact()
                &&& sibling.compact()
            },
        }
    }

    /// The forest as a map: every key that has a value, with that value.
    pub open spec fn entries(self) -> Map<Seq<u32>, V> {
        Map::new(
            |key: Seq<u32>| self.value_at(key) is Some,
            |key: Seq<u32>| self.value_at(key).unwrap(),
        )
    }
}

/// The forest that storing `pairs` one after the other builds from nothing.
pub open spec fn stored<V>(pairs: Seq<(Seq<u32>, V)>) -> Forest<V>
    decreases pairs.len(),
{
    if pairs.len() == 0 {
        Forest::Empty
    } else {
        stored(pairs.drop_last()).insert(pairs.last().0, pairs.last().1)
    }
}

/// The value of the last of `pairs` that has `key` for its key.
pub open spec fn latest<V>(pairs: Seq<(Seq<u32>, V)>, key: Seq<u32>) -> Option<V>
    decreases pairs.len(),
{
    if pairs.len() == 0 {
        None
    } else if pairs.last().0 == key {
        Some(pairs.last().1)
    } else {
        latest(pairs.drop_last(), key)
    }
}

/// Storing a key that shares nothing with a label keeps a chain apart from
/// that label.
pub proof fn lemma_insert_apart<V>(f: Forest<V>, key: Seq<u32>, value: V, label: Seq<u32>)
    requires
        f.apart_from(label),
        common_prefix_len(label, key) == 0,
    ensures
        f.insert(key, value).apart_from(label),
    decreases f,
{
    if key.len() > 0 {
        if let Forest::Fork { label: own, sibling, .. } = f {
            if common_prefix_len(own, key) == 0 {
                lemma_insert_apart(*sibling, key, value, label);
            }
        }
    }
}

/// Storing keeps a forest well formed: labels stay non-empty, and the labels
/// of one sibling chain still have no common prefix.
pub proof fn lemma_insert_well_formed<V>(f: Forest<V>, key: Seq<u32>, value: V)
    requires
        f.well_formed(),
    ensures
        f.insert(key, value).well_formed(),
    decreases f,
{
    if key.len() > 0 {
        if let Forest::Fork { label, value: held, child, sibling } = f {
            let p = common_prefix_len(label, key) as int;
            if p == 0 {
                lemma_insert_well_formed(*sibling, key, value);
                lemma_insert_apart(*sibling, key, value, label);
            } else if p < label.len() {
                lemma_apart_by_first(*sibling, label, label.take(p));
                let empty = Forest::<V>::Empty;
                let beside = Forest::hung(key.skip(p), value);
                assert(beside.well_formed() && beside.apart_from(label.skip(p))) by {
                    assert(empty.well_formed());
                    assert(empty.apart_from(label.skip(p)));
                    lemma_common_prefix_len_skip(label, key, p);
                }
                let back = f.back(p, beside);
                assert(back.well_formed());
            } else if p < key.len() {
                lemma_insert_well_formed(*child, key.skip(p), value);
            }
        }
    }
}

/// Storing never takes an edge out of a chain.
pub proof fn lemma_insert_keeps_edges<V>(f: Forest<V>, key: Seq<u32>, value: V)
    ensures
        f is Fork ==> f.insert(key, value) is Fork,
        f is Fork && f.sibling() is Fork ==> f.insert(key, value).sibling() is Fork,
    decreases f,
{
    if f is Fork {
        lemma_insert_keeps_edges(f.sibling(), key, value);
    }
}

/// Storing cuts a label only where it must: a forest in which every edge
/// without a value is a branching point stays that way.
pub proof fn lemma_insert_compact<V>(f: Forest<V>, key: Seq<u32>, value: V)
    requires
        f.compact(),
    ensures
        f.insert(key, value).compact(),
    decreases f,
{
    if key.len() > 0 {
        let empty = Forest::<V>::Empty;
        assert(empty.compact());
        if let Forest::Fork { label, value: held, child, sibling } = f {
            let p = common_prefix_len(label, key) as int;
            if p == 0 {
                lemma_insert_compact(*sibling, key, value);
            } else if p < label.len() {
                let beside = Forest::hung(key.skip(p), value);
                assert(beside.compact());
                let back = f.back(p, beside);
                assert(back.compact());
            } else if p < key.len() {
                lemma_insert_compact(*child, key.skip(p), value);
                lemma_insert_keeps_edges(*child, key.skip(p), value);
            }
        }
    }
}

/// Round trip. A key that was stored is found, and the node found for it
/// holds the value that was stored.
pub proof fn lemma_insert_then_lookup<V>(f: Forest<V>, key: Seq<u32>, value: V)
    requires
        key.len() > 0,
    ensures
        f.insert(key, value).lookup(key) is Some,
        f.insert(key, value).value_at(key) == Some(value),
    decreases f,
{
    lemma_common_prefix_len(key, key);
    if let Forest::Fork { label, value: held, child, sibling } = f {
        let p = common_prefix_len(label, key) as int;
        lemma_common_prefix_len(label, key);
        if p == 0 {
            lemma_insert_then_lookup(*sibling, key, value);
        } else if p < label.len() {
            lemma_common_prefix_len_take(label, key, p);
            if p < key.len() {
                let rest = key.skip(p);
                lemma_common_prefix_len(rest, rest);
                let leaf = Forest::leaf(rest, value);
                assert(leaf.lookup(rest) == Some(leaf));
                let back = f.back(p, leaf);
                assert(back.lookup(rest) == Some(leaf));
            }
        } else if p < key.len() {
            lemma_insert_then_lookup(*child, key.skip(p), value);
        }
    }
}

/// Storing one key leaves the value of every other key as it was.
pub proof fn lemma_insert_keeps_others<V>(f: Forest<V>, key: Seq<u32>, value: V, k: Seq<u32>)
    requires
        k != key,
    ensures
        f.insert(key, value).value_at(k) == f.value_at(k),
    decreases f,
{
    if key.len() > 0 {
        let empty = Forest::<V>::Empty;
        match f {
            Forest::Empty => {
                lemma_common_prefix_len(key, k);
                assert(empty.lookup(k.skip(key.len() as int)) is None);
                if common_prefix_len(key, k) == key.len() && key.len() == k.len() {
                    assert(k =~= key);
                }
            },
            Forest::Fork { label, value: held, child, sibling } => {
                let p = common_prefix_len(label, key) as int;
                let pk = common_prefix_len(label, k) as int;
                lemma_common_prefix_len(label, key);
                lemma_common_prefix_len(label, k);
                lemma_common_prefix_len(key, k);
                if p == 0 {
                    if pk == 0 {
                        lemma_insert_keeps_others(*sibling, key, value, k);
                    }
                } else if p < label.len() {
                    lemma_common_prefix_len_take(label, k, p);
                    if pk >= p && p < k.len() {
                        let beside = Forest::hung(key.skip(p), value);
                        let back = f.back(p, beside);
                        let below = k.skip(p);
                        lemma_common_prefix_len_skip(label, k, p);
                        if pk == p {
                            assert(back.lookup(below) == beside.lookup(below));
                            assert(empty.lookup(below) is None);
                            if p < key.len() {
                                let tail = key.skip(p);
                                lemma_common_prefix_len_skip(key, k, p);
                                let c = common_prefix_len(tail, below);
                                assert(empty.lookup(below.skip(c as int)) is None);
                                if c == tail.len() && c == below.len() {
                                    assert(k =~= key);
                                }
                            }
                        } else {
                            assert(below.skip(pk - p) =~= k.skip(pk));
                        }
                    }
                } else if p < key.len() {
                    if pk == p && p < k.len() {
                        if k.skip(p) == key.skip(p) {
                            assert forall|i: int| 0 <= i < k.len() implies k[i] == key[i] by {
                                if i >= p {
                                    assert(k.skip(p)[i - p] == key.skip(p)[i - p]);
                                }
                            }
                            assert(k =~= key);
                        }
                        lemma_insert_keeps_others(*child, key.skip(p), value, k.skip(p));
                    }
                }
            },
        }
    }
}

/// Storing is what it is for a map: afterwards the forest holds the value
/// under the key, and under every other key what it held before.
pub proof fn lemma_insert_entries<V>(f: Forest<V>, key: Seq<u32>, value: V)
    requires
        key.len() > 0,
    ensures
        f.insert(key, value).entries() == f.entries().insert(key, value),
{
    let after = f.insert(key, value);
    lemma_insert_then_lookup(f, key, value);
    assert forall|k: Seq<u32>| k != key implies after.value_at(k) == f.value_at(k) by {
        lemma_insert_keeps_others(f, key, value, k);
    }
}

/// Storing is exact. After any sequence of keys was stored, each with its
/// value, the value found under a non-empty key is the one that was stored
/// with it last, whatever other keys were stored before, between or after;
/// and nothing is found under a key that was never stored.
pub proof fn lemma_stored_value<V>(pairs: Seq<(Seq<u32>, V)>, key: Seq<u32>)
    requires
        key.len() > 0,
    ensures
        stored(pairs).value_at(key) == latest(pairs, key),
    decreases pairs.len(),
{
    if pairs.len() > 0 {
        let before = stored(pairs.drop_last());
        let (k, v) = pairs.last();
        lemma_stored_value(pairs.drop_last(), key);
        if k == key {
            lemma_insert_then_lookup(before, k, v);
        } else {
            lemma_insert_keeps_others(before, k, v, key);
        }
    }
}

/// The forest built by storing is well formed and has no edge without need.
pub proof fn lemma_stored_well_formed<V>(pairs: Seq<(Seq<u32>, V)>)
    ensures
        stored(pairs).well_formed(),
        stored(pairs).compact(),
    decreases pairs.len(),
{
    if pairs.len() > 0 {
        lemma_stored_well_formed(pairs.drop_last());
        lemma_insert_well_formed(stored(pairs.drop_last()), pairs.last().0, pairs.last().1);
        lemma_insert_compact(stored(pairs.drop_last()), pairs.last().0, pairs.last().1);
    }
}

} // verus!
