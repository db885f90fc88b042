//! Node identifiers in the persistent trie, on the model.
//!
//! A forest of identifiers has the shape of the trie and holds, for every
//! edge, the identifier of its node. An identifier stays with the accumulated
//! key of its node: when a label is cut, the node that takes the back of the
//! label keeps the identifier, and the new branching point above it gets a
//! new one.

use vstd::prelude::*;
use crate::forest::Forest;
use crate::index::{
    enroll_all, enrolled, extends, lemma_enroll_all_extends, lemma_enroll_all_one,
    lemma_enroll_all_two,
};
use crate::prefix::{
    common_prefix_len, lemma_common_prefix_len, lemma_common_prefix_len_skip,
    lemma_common_prefix_len_take,
};

verus! {

impl<V> Forest<V> {
    /// The two forests have the same edges with the same labels; what the
    /// edges hold may differ.
    pub open spec fn alike<W>(self, other: Forest<W>) -> bool
        decreases self,
    {
        match self {
            Forest::Empty => other is Empty,
            Forest::Fork { label, child, sibling, .. } => {
                &&& other is Fork
                &&& other.label() == label
                &&& child.alike(other.child())
                &&& sibling.alike(other.sibling())
            },
        }
    }

    /// The labels of the edges that storing or counting `key` creates, from
    /// the top down: the front of a label that is cut, then the edge for what
    /// is left of the key.
    pub open spec fn created(self, key: Seq<u32>) -> Seq<Seq<u32>>
        decreases self,
    {
        if key.len() == 0 {
            seq![]
        } else if self is Empty {
            seq![key]
        } else {
            let p = common_prefix_len(self.label(), key) as int;
            if p == 0 {
                self.sibling().created(key)
            } else if p < self.label().len() {
                if p < key.len() {
                    seq![self.label().take(p), key.skip(p)]
                } else {
                    seq![self.label().take(p)]
                }
            } else if p < key.len() {
                self.child().created(key.skip(p))
            } else {
                seq![]
            }
        }
    }
}

impl Forest<u64> {
    /// The identifiers after `key` was counted, where `first` is the next
    /// identifier to issue. The edges that are created get `first` and the
    /// identifiers after it, from the top down; every other edge keeps its
    /// own. Where a label is cut, the back of it is the edge that was there,
    /// and the front is created.
    pub open spec fn tag(self, key: Seq<u32>, first: nat) -> Forest<u64>
        decreases self,
    {
        if key.len() == 0 {
            self
        } else if self is Empty {
            Forest::leaf(key, first as u64)
        } else {
            let p = common_prefix_len(self.label(), key) as int;
            if p == 0 {
                self.with_sibling(self.sibling().tag(key, first))
            } else if p < self.label().len() {
                self.cut(p, Some(first as u64), Forest::hung(key.skip(p), (first + 1) as u64))
            } else if p < key.len() {
                self.with_child(self.child().tag(key.skip(p), first))
            } else {
                self
            }
        }
    }

    /// All the identifiers in the forest.
    pub open spec fn ids(self) -> Set<u64>
        decreases self,
    {
        match self {
            Forest::Empty => Set::empty(),
            Forest::Fork { value, child, sibling, .. } => {
                let below = child.ids().union(sibling.ids());
                match value {
                    Some(id) => below.insert(id),
                    None => below,
                }
            },
        }
    }

    /// Every edge holds an identifier, and no identifier is held twice.
    pub open spec fn distinct(self) -> bool
        decreases self,
    {
        match self {
            Forest::Empty => true,
            Forest::Fork { value, child, sibling, .. } => {
                &&& value matches Some(id)
                &&& !child.ids().contains(id)
                &&& !sibling.ids().contains(id)
                &&& child.ids().disjoint(sibling.ids())
                &&& child.distinct()
                &&& sibling.distinct()
            },
        }
    }

    /// Every identifier in the forest is below `bound`.
    pub open spec fn below(self, bound: nat) -> bool {
        forall|id: u64| #[trigger] self.ids().contains(id) ==> id < bound
    }

    /// `index` lists every identifier in the forest under every element of
    /// the label that stands with it.
    pub open spec fn listed(self, index: Map<u32, Set<u64>>) -> bool
        decreases self,
    {
        match self {
            Forest::Empty => true,
            Forest::Fork { label, value, child, sibling } => {
                &&& value matches Some(id) ==> enrolled(index, label, id)
                &&& child.listed(index)
                &&& sibling.listed(index)
            },
        }
    }
}

/// The identifiers from `lo` up to, but not including, `hi`.
pub open spec fn span(lo: nat, hi: nat) -> Set<u64> {
    Set::new(|id: u64| lo <= id < hi)
}

/// Forests that are alike create the same edges for a key.
pub proof fn lemma_alike_created<V, W>(a: Forest<V>, b: Forest<W>, key: Seq<u32>)
    requires
        a.alike(b),
    ensures
        a.created(key) == b.created(key),
    decreases a,
{
    if let Forest::Fork { label, child, sibling, .. } = a {
        lemma_alike_created(*sibling, b.sibling(), key);
        let p = common_prefix_len(label, key) as int;
        if 0 < p < key.len() {
            lemma_alike_created(*child, b.child(), key.skip(p));
        }
    }
}

/// Forests that are alike find their edges under the same keys, and what
/// they find is alike.
pub proof fn lemma_alike_lookup<V, W>(a: Forest<V>, b: Forest<W>, key: Seq<u32>)
    requires
        a.alike(b),
    ensures
        a.lookup(key) is Some <==> b.lookup(key) is Some,
        a.lookup(key) is Some ==> a.lookup(key).unwrap().alike(b.lookup(key).unwrap()),
    decreases a,
{
    if let Forest::Fork { label, child, sibling, .. } = a {
        lemma_alike_lookup(*sibling, b.sibling(), key);
        let p = common_prefix_len(label, key) as int;
        lemma_alike_lookup(*child, b.child(), key.skip(p));
    }
}

/// Storing or counting creates at most two edges.
pub proof fn lemma_created_len<V>(f: Forest<V>, key: Seq<u32>)
    ensures
        f.created(key).len() <= 2,
    decreases f,
{
    if key.len() > 0 {
        if let Forest::Fork { label, child, sibling, .. } = f {
            let p = common_prefix_len(label, key) as int;
            if p == 0 {
                lemma_created_len(*sibling, key);
            } else if p < key.len() && p >= label.len() {
                lemma_created_len(*child, key.skip(p));
            }
        }
    }
}

/// The identifiers after counting are those from before and the ones that
/// were issued for the edges that were created.
pub proof fn lemma_tag_ids(f: Forest<u64>, key: Seq<u32>, first: nat)
    requires
        first + f.created(key).len() <= u64::MAX,
    ensures
        f.tag(key, first).ids() == f.ids().union(span(first, first + f.created(key).len())),
    decreases f,
{
    assert(Forest::<u64>::Empty.ids() =~= Set::<u64>::empty());
    if key.len() > 0 {
        if let Forest::Fork { label, value, child, sibling } = f {
            let p = common_prefix_len(label, key) as int;
            lemma_common_prefix_len(label, key);
            if p == 0 {
                lemma_tag_ids(*sibling, key, first);
            } else if p < label.len() {
                let beside = Forest::hung(key.skip(p), (first + 1) as u64);
                assert(f.back(p, beside).ids() =~= match value {
                    Some(id) => child.ids().union(beside.ids()).insert(id),
                    None => child.ids().union(beside.ids()),
                });
            } else if p < key.len() {
                lemma_tag_ids(*child, key.skip(p), first);
            }
        }
    }
}

/// Identifiers stay distinct: where no identifier is held twice and all were
/// issued before `first`, the same holds after counting, with the bound moved
/// past the identifiers that were issued.
pub proof fn lemma_tag_distinct(f: Forest<u64>, key: Seq<u32>, first: nat)
    requires
        f.distinct(),
        f.below(first),
        first + f.created(key).len() <= u64::MAX,
    ensures
        f.tag(key, first).distinct(),
        f.tag(key, first).below(first + f.created(key).len()),
    decreases f,
{
    lemma_tag_ids(f, key, first);
    assert(Forest::<u64>::Empty.distinct());
    if key.len() > 0 {
        if let Forest::Fork { label, value, child, sibling } = f {
            let p = common_prefix_len(label, key) as int;
            assert(child.below(first)) by {
                assert forall|id: u64| #[trigger] child.ids().contains(id) implies id < first by {
                    assert(f.ids().contains(id));
                }
            }
            assert(sibling.below(first)) by {
                assert forall|id: u64| #[trigger] sibling.ids().contains(id) implies id
                    < first by {
                    assert(f.ids().contains(id));
                }
            }
            assert(f.ids().contains(value.unwrap()));
            if p == 0 {
                lemma_tag_ids(*sibling, key, first);
                lemma_tag_distinct(*sibling, key, first);
            } else if p < label.len() {
                let beside = Forest::hung(key.skip(p), (first + 1) as u64);
                assert(beside.distinct());
                assert(f.back(p, beside).distinct());
            } else if p < key.len() {
                lemma_tag_ids(*child, key.skip(p), first);
                lemma_tag_distinct(*child, key.skip(p), first);
            }
        }
    }
}

/// What is listed stays listed when the index grows.
pub proof fn lemma_listed_extends(
    f: Forest<u64>,
    small: Map<u32, Set<u64>>,
    large: Map<u32, Set<u64>>,
)
    requires
        f.listed(small),
        extends(large, small),
    ensures
        f.listed(large),
    decreases f,
{
    if let Forest::Fork { child, sibling, .. } = f {
        lemma_listed_extends(*child, small, large);
        lemma_listed_extends(*sibling, small, large);
    }
}

/// The index stays complete: where every identifier is listed under its
/// label, the same holds after counting, once the edges that were created
/// are listed under the identifiers that were issued for them.
pub proof fn lemma_tag_listed(f: Forest<u64>, key: Seq<u32>, first: nat, index: Map<u32, Set<u64>>)
    requires
        f.listed(index),
    ensures
        f.tag(key, first).listed(enroll_all(index, f.created(key), first)),
    decreases f,
{
    let after = enroll_all(index, f.created(key), first);
    lemma_enroll_all_extends(index, f.created(key), first);
    lemma_listed_extends(f, index, after);
    assert(Forest::<u64>::Empty.listed(after));
    if key.len() > 0 {
        match f {
            Forest::Empty => {
                lemma_enroll_all_one(index, key, first);
            },
            Forest::Fork { label, child, sibling, .. } => {
                let p = common_prefix_len(label, key) as int;
                lemma_common_prefix_len(label, key);
                if p == 0 {
                    lemma_tag_listed(*sibling, key, first, index);
                } else if p < label.len() {
                    if p < key.len() {
                        lemma_enroll_all_two(index, label.take(p), key.skip(p), first);
                    } else {
                        lemma_enroll_all_one(index, label.take(p), first);
                    }
                    let beside = Forest::hung(key.skip(p), (first + 1) as u64);
                    assert(beside.listed(after));
                    assert(f.back(p, beside).listed(after));
                } else if p < key.len() {
                    lemma_tag_listed(*child, key.skip(p), first, index);
                }
            },
        }
    }
}

/// An identifier stays with its key. The node that was found under a key
/// before counting is found under that key afterwards, with the identifier
/// it had.
pub proof fn lemma_tag_keeps(f: Forest<u64>, key: Seq<u32>, first: nat, k: Seq<u32>)
    requires
        f.lookup(k) is Some,
    ensures
        f.tag(key, first).lookup(k) is Some,
        f.tag(key, first).value_at(k) == f.value_at(k),
    decreases f,
{
    if key.len() > 0 {
        if let Forest::Fork { label, value, child, sibling } = f {
            let p = common_prefix_len(label, key) as int;
            let pk = common_prefix_len(label, k) as int;
            lemma_common_prefix_len(label, key);
            lemma_common_prefix_len(label, k);
            if p == 0 {
                if pk == 0 {
                    lemma_tag_keeps(*sibling, key, first, k);
                }
            } else if p < label.len() {
                lemma_common_prefix_len_take(label, k, p);
                if pk > 0 {
                    lemma_common_prefix_len_skip(label, k, p);
                    let beside = Forest::hung(key.skip(p), (first + 1) as u64);
                    assert(k.skip(p).skip(pk - p) =~= k.skip(pk));
                    assert(f.back(p, beside).value_at(k.skip(p)) == f.value_at(k));
                }
            } else if p < key.len() {
                if pk == p && pk < k.len() {
                    lemma_tag_keeps(*child, key.skip(p), first, k.skip(p));
                }
            }
        }
    }
}

/// The index is complete. Where every identifier is listed under its label,
/// the node that is found under a key is listed under every element of its
/// own label.
pub proof fn lemma_listed_lookup(f: Forest<u64>, index: Map<u32, Set<u64>>, k: Seq<u32>)
    requires
        f.listed(index),
        f.lookup(k) is Some,
    ensures
        f.lookup(k).unwrap() is Fork,
        f.value_at(k) matches Some(id) ==> enrolled(index, f.lookup(k).unwrap().label(), id),
    decreases f,
{
    if let Forest::Fork { label, child, sibling, .. } = f {
        let p = common_prefix_len(label, k);
        if p == 0 {
            lemma_listed_lookup(*sibling, index, k);
        } else if p == label.len() && p != k.len() {
            lemma_listed_lookup(*child, index, k.skip(p as int));
        }
    }
}

/// The identifier of a node that is found is one of the forest's identifiers.
pub proof fn lemma_lookup_id(f: Forest<u64>, k: Seq<u32>)
    requires
        f.lookup(k) is Some,
    ensures
        f.value_at(k) matches Some(id) ==> f.ids().contains(id),
    decreases f,
{
    if let Forest::Fork { label, child, sibling, .. } = f {
        let p = common_prefix_len(label, k);
        if p == 0 {
            lemma_lookup_id(*sibling, k);
        } else if p == label.len() && p != k.len() {
            lemma_lookup_id(*child, k.skip(p as int));
        }
    }
}

/// The identifier tells the node. Where no identifier is held twice, two
/// keys under which nodes with the same identifier are found are one key.
pub proof fn lemma_id_tells_key(f: Forest<u64>, a: Seq<u32>, b: Seq<u32>)
    requires
        f.distinct(),
        f.lookup(a) is Some,
        f.lookup(b) is Some,
        f.value_at(a) == f.value_at(b),
    ensures
        a == b,
    decreases f,
{
    if let Forest::Fork { label, child, sibling, .. } = f {
        let pa = common_prefix_len(label, a) as int;
        let pb = common_prefix_len(label, b) as int;
        lemma_common_prefix_len(label, a);
        lemma_common_prefix_len(label, b);
        // the search ends on this edge, or goes on below it
        let here = |k: Seq<u32>, p: int| p > 0 && p == label.len() && p == k.len();
        let down = |k: Seq<u32>, p: int| p > 0 && p == label.len() && p != k.len();
        if pa == 0 {
            lemma_lookup_id(*sibling, a);
        }
        if pb == 0 {
            lemma_lookup_id(*sibling, b);
        }
        if down(a, pa) {
            lemma_lookup_id(*child, a.skip(pa));
            lemma_lookup_distinct(*child, a.skip(pa));
        }
        if down(b, pb) {
            lemma_lookup_id(*child, b.skip(pb));
            lemma_lookup_distinct(*child, b.skip(pb));
        }
        if pa == 0 && pb == 0 {
            lemma_id_tells_key(*sibling, a, b);
        } else if down(a, pa) && down(b, pb) {
            lemma_id_tells_key(*child, a.skip(pa), b.skip(pb));
            assert(a =~= label + a.skip(pa));
            assert(b =~= label + b.skip(pb));
        } else if here(a, pa) && here(b, pb) {
            assert(a =~= b);
        }
    }
}

/// In a forest where every edge holds an identifier, the node that is found
/// holds one.
pub proof fn lemma_lookup_distinct(f: Forest<u64>, k: Seq<u32>)
    requires
        f.distinct(),
        f.lookup(k) is Some,
    ensures
        f.value_at(k) is Some,
        f.lookup(k).unwrap().distinct(),
    decreases f,
{
    if let Forest::Fork { label, child, sibling, .. } = f {
        let p = common_prefix_len(label, k);
        if p == 0 {
            lemma_lookup_distinct(*sibling, k);
        } else if p == label.len() && p != k.len() {
            lemma_lookup_distinct(*child, k.skip(p as int));
        }
    }
}

} // verus!
