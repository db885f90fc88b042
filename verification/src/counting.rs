//! Counting on the model, and what holds of it.

use vstd::prelude::*;
use crate::forest::{Forest, lemma_apart_by_first};
use crate::prefix::{
    common_prefix_len, is_prefix, lemma_common_prefix_len, lemma_common_prefix_len_skip,
    lemma_common_prefix_len_symmetric, lemma_common_prefix_len_take, lemma_is_prefix,
};

verus! {

/// One more occurrence on top of a count; an edge without a count stays
/// without one.
pub open spec fn bump(value: Option<u32>) -> Option<u32> {
    match value {
        Some(c) => Some((c + 1) as u32),
        None => None,
    }
}

impl Forest<u32> {
    /// The forest after one more occurrence of `key` was counted.
    ///
    /// The search for the key goes as in `lookup`. Every edge that the key
    /// runs through, and the edge where it ends, is counted up by one. Where
    /// the search ends with nothing found, a new edge with the count one is
    /// hung there for what is left of the key. Where the key leaves a label
    /// halfway, or ends inside it, the label is cut at that point: the back
    /// keeps the count, and the front gets that count plus one. The empty
    /// key changes nothing.
    pub open spec fn count(self, key: Seq<u32>) -> Forest<u32>
        decreases self,
    {
        if key.len() == 0 {
            self
        } else if self is Empty {
            Forest::leaf(key, 1u32)
        } else {
            let p = common_prefix_len(self.label(), key) as int;
            if p == 0 {
                self.with_sibling(self.sibling().count(key))
            } else if p < self.label().len() {
                self.cut(p, bump(self.value()), Forest::hung(key.skip(p), 1u32))
            } else if p < key.len() {
                self.with_child(self.child().count(key.skip(p))).with_value(bump(self.value()))
            } else {
                self.with_value(bump(self.value()))
            }
        }
    }

    /// Every edge that counting `key` would count up holds a count, and that
    /// count is below `u32::MAX`.
    pub open spec fn countable(self, key: Seq<u32>) -> bool
        decreases self,
    {
        if key.len() == 0 {
            true
        } else {
            match self {
                Forest::Empty => true,
                Forest::Fork { label, value, child, sibling } => {
                    let p = common_prefix_len(label, key) as int;
                    if p == 0 {
                        sibling.countable(key)
                    } else {
                        &&& value matches Some(c)
                        &&& c < u32::MAX
                        &&& p < key.len() && p == label.len() ==> child.countable(key.skip(p))
                    }
                },
            }
        }
    }

    /// Every edge holds a count.
    pub open spec fn counted(self) -> bool
        decreases self,
    {
        match self {
            Forest::Empty => true,
            Forest::Fork { value, child, sibling, .. } => {
                &&& value is Some
                &&& child.counted()
                &&& sibling.counted()
            },
        }
    }

    /// Every edge holds a count, and none is above `n`.
    pub open spec fn within(self, n: nat) -> bool
        decreases self,
    {
        match self {
            Forest::Empty => true,
            Forest::Fork { value, child, sibling, .. } => {
                &&& value matches Some(c)
                &&& c <= n
                &&& child.within(n)
                &&& sibling.within(n)
            },
        }
    }

    /// The count that the forest holds for the keys that start with `q`: the
    /// count of the edge on which `q` ends, be it at the end of the label or
    /// inside it, and zero where `q` leaves the forest or is empty.
    pub open spec fn weight(self, q: Seq<u32>) -> nat
        decreases self,
    {
        match self {
            Forest::Empty => 0,
            Forest::Fork { label, value, child, sibling } => {
                let p = common_prefix_len(label, q);
                if p == 0 {
                    sibling.weight(q)
                } else if p == q.len() {
                    match value {
                        Some(c) => c as nat,
                        None => 0,
                    }
                } else if p == label.len() {
                    child.weight(q.skip(p as int))
                } else {
                    0
                }
            },
        }
    }
}

/// From `before` to `after`, `key` was counted once: the weight of every
/// non-empty prefix of `key`, the key itself included, went up by one, and
/// every other weight stayed as it was.
pub open spec fn counted_once(before: Forest<u32>, after: Forest<u32>, key: Seq<u32>) -> bool {
    forall|q: Seq<u32>|
        q.len() > 0 ==> #[trigger] after.weight(q) == before.weight(q) + if is_prefix(q, key) {
            1nat
        } else {
            0nat
        }
}

/// The forest that counting `keys` one after the other builds from nothing.
pub open spec fn tally(keys: Seq<Seq<u32>>) -> Forest<u32>
    decreases keys.len(),
{
    if keys.len() == 0 {
        Forest::Empty
    } else {
        tally(keys.drop_last()).count(keys.last())
    }
}

/// How many of `keys` start with `q`.
pub open spec fn occurrences(keys: Seq<Seq<u32>>, q: Seq<u32>) -> nat
    decreases keys.len(),
{
    if keys.len() == 0 {
        0
    } else {
        occurrences(keys.drop_last(), q) + if is_prefix(q, keys.last()) {
            1nat
        } else {
            0nat
        }
    }
}

/// Counting a key that shares nothing with a label keeps a chain apart from
/// that label.
pub proof fn lemma_count_apart(f: Forest<u32>, key: Seq<u32>, label: Seq<u32>)
    requires
        f.apart_from(label),
        common_prefix_len(label, key) == 0,
    ensures
        f.count(key).apart_from(label),
    decreases f,
{
    if key.len() > 0 {
        if let Forest::Fork { label: own, sibling, .. } = f {
            if common_prefix_len(own, key) == 0 {
                lemma_count_apart(*sibling, key, label);
            }
        }
    }
}

/// Counting keeps a forest well formed: labels stay non-empty, and the labels
/// of one sibling chain still have no common prefix.
pub proof fn lemma_count_well_formed(f: Forest<u32>, key: Seq<u32>)
    requires
        f.well_formed(),
    ensures
        f.count(key).well_formed(),
    decreases f,
{
    if key.len() > 0 {
        if let Forest::Fork { label, child, sibling, .. } = f {
            let p = common_prefix_len(label, key) as int;
            if p == 0 {
                lemma_count_well_formed(*sibling, key);
                lemma_count_apart(*sibling, key, label);
            } else if p < label.len() {
                lemma_apart_by_first(*sibling, label, label.take(p));
                let empty = Forest::<u32>::Empty;
                let beside = Forest::hung(key.skip(p), 1u32);
                assert(beside.well_formed() && beside.apart_from(label.skip(p))) by {
                    assert(empty.well_formed());
                    assert(empty.apart_from(label.skip(p)));
                    lemma_common_prefix_len_skip(label, key, p);
                }
                assert(f.back(p, beside).well_formed());
            } else if p < key.len() {
                lemma_count_well_formed(*child, key.skip(p));
            }
        }
    }
}

/// Counting keeps a count on every edge.
pub proof fn lemma_count_counted(f: Forest<u32>, key: Seq<u32>)
    requires
        f.counted(),
    ensures
        f.count(key).counted(),
    decreases f,
{
    if key.len() > 0 {
        if let Forest::Fork { label, child, sibling, .. } = f {
            let p = common_prefix_len(label, key) as int;
            if p == 0 {
                lemma_count_counted(*sibling, key);
            } else if p < label.len() {
                let beside = Forest::hung(key.skip(p), 1u32);
                assert(beside.counted()) by {
                    assert(Forest::<u32>::Empty.counted());
                }
                assert(f.back(p, beside).counted());
            } else if p < key.len() {
                lemma_count_counted(*child, key.skip(p));
            }
        }
    }
}

/// A bound on the counts can always be raised.
pub proof fn lemma_within_more(f: Forest<u32>, n: nat, m: nat)
    requires
        f.within(n),
        n <= m,
    ensures
        f.within(m),
    decreases f,
{
    if let Forest::Fork { child, sibling, .. } = f {
        lemma_within_more(*child, n, m);
        lemma_within_more(*sibling, n, m);
    }
}

/// Where every edge holds a count below `u32::MAX`, any key can be counted,
/// and no count goes up by more than one.
pub proof fn lemma_count_within(f: Forest<u32>, key: Seq<u32>, n: nat)
    requires
        f.within(n),
        n < u32::MAX,
    ensures
        f.countable(key),
        f.counted(),
        f.count(key).within(n + 1),
    decreases f,
{
    assert(Forest::<u32>::Empty.within(n + 1));
    lemma_within_more(f, n, n + 1);
    if let Forest::Fork { label, child, sibling, .. } = f {
        lemma_count_within(*sibling, key, n);
        lemma_count_within(*child, key, n);
        if key.len() > 0 {
            let p = common_prefix_len(label, key) as int;
            if 0 < p < label.len() {
                let beside = Forest::hung(key.skip(p), 1u32);
                assert(beside.within(n + 1));
                assert(f.back(p, beside).within(n + 1));
            } else if label.len() <= p < key.len() {
                lemma_count_within(*child, key.skip(p), n);
            }
        }
    }
}

/// A key that was counted is found: after counting, the traversal reaches a
/// node whose accumulated label is exactly the key.
pub proof fn lemma_count_then_lookup(f: Forest<u32>, key: Seq<u32>)
    requires
        key.len() > 0,
    ensures
        f.count(key).lookup(key) is Some,
    decreases f,
{
    lemma_common_prefix_len(key, key);
    if let Forest::Fork { label, child, sibling, .. } = f {
        let p = common_prefix_len(label, key) as int;
        lemma_common_prefix_len(label, key);
        if p == 0 {
            lemma_count_then_lookup(*sibling, key);
        } else if p < label.len() {
            lemma_common_prefix_len_take(label, key, p);
            if p < key.len() {
                let rest = key.skip(p);
                lemma_common_prefix_len(rest, rest);
                let leaf = Forest::leaf(rest, 1u32);
                assert(leaf.lookup(rest) is Some);
                assert(f.back(p, leaf).lookup(rest) is Some);
            }
        } else if p < key.len() {
            lemma_count_then_lookup(*child, key.skip(p));
        }
    }
}

/// Counting never takes a node away: a key that was found before is found
/// after.
pub proof fn lemma_count_keeps_nodes(f: Forest<u32>, key: Seq<u32>, k: Seq<u32>)
    requires
        f.lookup(k) is Some,
    ensures
        f.count(key).lookup(k) is Some,
    decreases f,
{
    if key.len() > 0 {
        if let Forest::Fork { label, child, sibling, .. } = f {
            let p = common_prefix_len(label, key) as int;
            let pk = common_prefix_len(label, k) as int;
            lemma_common_prefix_len(label, key);
            lemma_common_prefix_len(label, k);
            if p == 0 {
                if pk == 0 {
                    lemma_count_keeps_nodes(*sibling, key, k);
                }
            } else if p < label.len() {
                lemma_common_prefix_len_take(label, k, p);
                if pk > 0 {
                    lemma_common_prefix_len_skip(label, k, p);
                    let beside = Forest::hung(key.skip(p), 1u32);
                    assert(k.skip(p).skip(pk - p) =~= k.skip(pk));
                    assert(f.back(p, beside).lookup(k.skip(p)) is Some);
                }
            } else if p < key.len() {
                if pk == p && pk < k.len() {
                    lemma_count_keeps_nodes(*child, key.skip(p), k.skip(p));
                }
            }
        }
    }
}

/// The accounting rule. Counting `key` adds one to the weight of every
/// non-empty prefix of `key`, the key itself included, and leaves every other
/// weight as it was.
pub proof fn lemma_count_weight(f: Forest<u32>, key: Seq<u32>, q: Seq<u32>)
    requires
        key.len() > 0,
        q.len() > 0,
        f.countable(key),
    ensures
        f.count(key).weight(q) == f.weight(q) + if is_prefix(q, key) {
            1nat
        } else {
            0nat
        },
    decreases f,
{
    lemma_common_prefix_len(q, key);
    lemma_common_prefix_len_symmetric(key, q);
    let empty = Forest::<u32>::Empty;
    match f {
        Forest::Empty => {
            assert(empty.weight(q.skip(key.len() as int)) == 0);
        },
        Forest::Fork { label, child, sibling, .. } => {
            let p = common_prefix_len(label, key) as int;
            let pq = common_prefix_len(label, q) as int;
            lemma_common_prefix_len(label, key);
            lemma_common_prefix_len(label, q);
            if p == 0 {
                if pq == 0 {
                    lemma_count_weight(*sibling, key, q);
                }
            } else if p < label.len() {
                lemma_common_prefix_len_take(label, q, p);
                if pq >= p && p < q.len() {
                    let beside = Forest::hung(key.skip(p), 1u32);
                    let back = f.back(p, beside);
                    let below = q.skip(p);
                    lemma_common_prefix_len_skip(label, q, p);
                    if pq == p {
                        assert(back.weight(below) == beside.weight(below));
                        assert(empty.weight(below) == 0);
                        if p < key.len() {
                            lemma_common_prefix_len_skip(key, q, p);
                            let c = common_prefix_len(key.skip(p), below);
                            assert(empty.weight(below.skip(c as int)) == 0);
                        }
                    } else {
                        assert(below.skip(pq - p) =~= q.skip(pq));
                        assert(f.count(key).weight(q) == back.weight(below));
                    }
                }
            } else if p < key.len() {
                if pq == p && p < q.len() {
                    lemma_common_prefix_len_skip(key, q, p);
                    lemma_count_weight(*child, key.skip(p), q.skip(p));
                    lemma_is_prefix(q.skip(p), key.skip(p));
                    lemma_common_prefix_len_symmetric(key.skip(p), q.skip(p));
                }
            }
        },
    }
}

/// The accounting rule, for all keys at once.
pub proof fn lemma_count_once(f: Forest<u32>, key: Seq<u32>)
    requires
        key.len() > 0,
        f.countable(key),
    ensures
        counted_once(f, f.count(key), key),
{
    assert forall|q: Seq<u32>| q.len() > 0 implies #[trigger] f.count(key).weight(q) == f.weight(
        q,
    ) + if is_prefix(q, key) {
        1nat
    } else {
        0nat
    } by {
        lemma_count_weight(f, key, q);
    }
}

/// The count of a key that was counted is one more than its weight before.
pub proof fn lemma_count_value(f: Forest<u32>, key: Seq<u32>)
    requires
        key.len() > 0,
        f.countable(key),
    ensures
        f.weight(key) < u32::MAX,
        f.count(key).value_at(key) == Some((f.weight(key) + 1) as u32),
    decreases f,
{
    lemma_common_prefix_len(key, key);
    if let Forest::Fork { label, child, sibling, .. } = f {
        let p = common_prefix_len(label, key) as int;
        lemma_common_prefix_len(label, key);
        if p == 0 {
            lemma_count_value(*sibling, key);
        } else if p < label.len() {
            lemma_common_prefix_len_take(label, key, p);
            if p < key.len() {
                let rest = key.skip(p);
                lemma_common_prefix_len(rest, rest);
                lemma_common_prefix_len_skip(label, key, p);
                let leaf = Forest::leaf(rest, 1u32);
                assert(leaf.lookup(rest) == Some(leaf));
                assert(f.back(p, leaf).lookup(rest) == Some(leaf));
            }
        } else if p < key.len() {
            lemma_count_value(*child, key.skip(p));
        }
    } else {
        assert(f.weight(key) == 0);
    }
}

/// The count stored at the node that the traversal finds for `q` is the
/// weight of `q`.
pub proof fn lemma_lookup_weight(f: Forest<u32>, q: Seq<u32>)
    requires
        f.lookup(q) is Some,
    ensures
        f.lookup(q).unwrap() is Fork,
        f.weight(q) == match f.lookup(q).unwrap().value() {
            Some(c) => c as nat,
            None => 0,
        },
    decreases f,
{
    if let Forest::Fork { label, child, sibling, .. } = f {
        let p = common_prefix_len(label, q);
        if p == 0 {
            lemma_lookup_weight(*sibling, q);
        } else if p == label.len() && p != q.len() {
            lemma_lookup_weight(*child, q.skip(p as int));
        }
    }
}

/// A bound on all counts bounds the count of the node that is found.
pub proof fn lemma_lookup_within(f: Forest<u32>, q: Seq<u32>, n: nat)
    requires
        f.within(n),
        f.lookup(q) is Some,
    ensures
        f.lookup(q).unwrap().within(n),
    decreases f,
{
    if let Forest::Fork { label, child, sibling, .. } = f {
        let p = common_prefix_len(label, q);
        if p == 0 {
            lemma_lookup_within(*sibling, q, n);
        } else if p == label.len() && p != q.len() {
            lemma_lookup_within(*child, q.skip(p as int), n);
        }
    }
}

/// The forest built by counting is well formed.
pub proof fn lemma_tally_well_formed(keys: Seq<Seq<u32>>)
    ensures
        tally(keys).well_formed(),
    decreases keys.len(),
{
    if keys.len() > 0 {
        lemma_tally_well_formed(keys.drop_last());
        lemma_count_well_formed(tally(keys.drop_last()), keys.last());
    }
}

/// After `n` keys were counted, no count is above `n`.
pub proof fn lemma_tally_within(keys: Seq<Seq<u32>>)
    requires
        keys.len() <= u32::MAX,
    ensures
        tally(keys).within(keys.len()),
    decreases keys.len(),
{
    if keys.len() > 0 {
        lemma_tally_within(keys.drop_last());
        lemma_count_within(tally(keys.drop_last()), keys.last(), (keys.len() - 1) as nat);
    }
}

/// After any sequence of keys was counted, the weight of a non-empty `q` is
/// the number of those keys that start with `q`.
pub proof fn lemma_tally_weight(keys: Seq<Seq<u32>>, q: Seq<u32>)
    requires
        keys.len() <= u32::MAX,
        q.len() > 0,
    ensures
        tally(keys).weight(q) == occurrences(keys, q),
    decreases keys.len(),
{
    if keys.len() > 0 {
        let before = tally(keys.drop_last());
        lemma_tally_weight(keys.drop_last(), q);
        lemma_tally_within(keys.drop_last());
        if keys.last().len() > 0 {
            lemma_count_within(before, keys.last(), (keys.len() - 1) as nat);
            lemma_count_weight(before, keys.last(), q);
        }
    }
}

/// Every non-empty key that was counted is found afterwards.
pub proof fn lemma_tally_holds(keys: Seq<Seq<u32>>, i: int)
    requires
        0 <= i < keys.len(),
        keys[i].len() > 0,
    ensures
        tally(keys).lookup(keys[i]) is Some,
    decreases keys.len(),
{
    let before = tally(keys.drop_last());
    if i == keys.len() - 1 {
        lemma_count_then_lookup(before, keys.last());
    } else {
        lemma_tally_holds(keys.drop_last(), i);
        lemma_count_keeps_nodes(before, keys.last(), keys[i]);
    }
}

/// Counting is exact. After any sequence of keys was counted, the node found
/// for one of them holds the number of counted keys that start with it; where
/// no other key starts with it, that is the number of times it was counted.
pub proof fn lemma_tally_count(keys: Seq<Seq<u32>>, i: int)
    requires
        keys.len() <= u32::MAX,
        0 <= i < keys.len(),
        keys[i].len() > 0,
    ensures
        tally(keys).lookup(keys[i]) is Some,
        tally(keys).value_at(keys[i]) == Some(occurrences(keys, keys[i]) as u32),
        occurrences(keys, keys[i]) <= u32::MAX,
{
    let f = tally(keys);
    lemma_tally_holds(keys, i);
    lemma_tally_weight(keys, keys[i]);
    lemma_lookup_weight(f, keys[i]);
    lemma_tally_within(keys);
    lemma_lookup_within(f, keys[i], keys.len());
}

} // verus!
