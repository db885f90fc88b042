//! The element index: from a key element to the nodes whose label holds it.
//!
//! Nodes are listed by identifier. An identifier is issued once and stays
//! with its node through every later snapshot, however the node's label is
//! cut or its links are rebuilt.

use std::collections::{HashMap, HashSet};
use vstd::prelude::*;
use vstd::std_specs::hash::*;

verus! {

broadcast use vstd::std_specs::hash::group_hash_axioms;

/// The identifiers listed under `element`; none where it has no bucket.
pub open spec fn bucket_of(index: Map<u32, Set<u64>>, element: u32) -> Set<u64> {
    if index.contains_key(element) {
        index[element]
    } else {
        Set::empty()
    }
}

/// The index after `id` was listed under every element of `label`.
pub open spec fn enroll(index: Map<u32, Set<u64>>, label: Seq<u32>, id: u64) -> Map<u32, Set<u64>> {
    Map::new(
        |e: u32| index.contains_key(e) || label.contains(e),
        |e: u32|
            if label.contains(e) {
                bucket_of(index, e).insert(id)
            } else {
                index[e]
            },
    )
}

/// The index after each of `labels` was listed under an identifier of its
/// own, counting up from `first`.
pub open spec fn enroll_all(index: Map<u32, Set<u64>>, labels: Seq<Seq<u32>>, first: nat) -> Map<
    u32,
    Set<u64>,
>
    decreases labels.len(),
{
    if labels.len() == 0 {
        index
    } else {
        enroll_all(enroll(index, labels[0], first as u64), labels.drop_first(), first + 1)
    }
}

/// `id` is listed under every element of `label`.
pub open spec fn enrolled(index: Map<u32, Set<u64>>, label: Seq<u32>, id: u64) -> bool {
    forall|i: int| 0 <= i < label.len() ==> bucket_of(index, #[trigger] label[i]).contains(id)
}

/// Whatever `small` lists, `large` lists too.
pub open spec fn extends(large: Map<u32, Set<u64>>, small: Map<u32, Set<u64>>) -> bool {
    forall|e: u32, id: u64| #[trigger]
        bucket_of(small, e).contains(id) ==> bucket_of(large, e).contains(id)
}

/// Listing never takes anything out, and lists the label it was given.
pub proof fn lemma_enroll(index: Map<u32, Set<u64>>, label: Seq<u32>, id: u64)
    ensures
        extends(enroll(index, label, id), index),
        enrolled(enroll(index, label, id), label, id),
{
}

/// Listing several labels never takes anything out.
pub proof fn lemma_enroll_all_extends(index: Map<u32, Set<u64>>, labels: Seq<Seq<u32>>, first: nat)
    ensures
        extends(enroll_all(index, labels, first), index),
    decreases labels.len(),
{
    if labels.len() > 0 {
        let step = enroll(index, labels[0], first as u64);
        lemma_enroll_all_extends(step, labels.drop_first(), first + 1);
        let after = enroll_all(index, labels, first);
        assert forall|e: u32, id: u64| #[trigger]
            bucket_of(index, e).contains(id) implies bucket_of(after, e).contains(id) by {
            assert(bucket_of(step, e).contains(id));
        }
    }
}

/// Listing one label is `enroll`.
pub proof fn lemma_enroll_all_one(index: Map<u32, Set<u64>>, label: Seq<u32>, first: nat)
    ensures
        enroll_all(index, seq![label], first) == enroll(index, label, first as u64),
{
    reveal_with_fuel(enroll_all, 2);
}

/// Listing two labels is `enroll` twice, under two identifiers in a row.
pub proof fn lemma_enroll_all_two(index: Map<u32, Set<u64>>, a: Seq<u32>, b: Seq<u32>, first: nat)
    ensures
        enroll_all(index, seq![a, b], first) == enroll(
            enroll(index, a, first as u64),
            b,
            (first + 1) as u64,
        ),
{
    assert(seq![a, b].drop_first() =~= seq![b]);
    lemma_enroll_all_one(enroll(index, a, first as u64), b, first + 1);
}

/// An element index together with the source of node identifiers.
#[derive(Debug)]
pub struct ElementIndex {
    buckets: HashMap<u32, HashSet<u64>>,
    next: u64,
}

impl View for ElementIndex {
    type V = Map<u32, Set<u64>>;

    /// The buckets: for every element that has one, the identifiers listed
    /// under it.
    closed spec fn view(&self) -> Map<u32, Set<u64>> {
        self.buckets@.map_values(|b: HashSet<u64>| b@)
    }
}

impl ElementIndex {
    /// How many identifiers were issued so far; the next one has this number.
    pub closed spec fn issued(&self) -> nat {
        self.next as nat
    }

    /// An index that lists nothing and has issued no identifier.
    pub fn new() -> (index: ElementIndex)
        ensures
            index@ == Map::<u32, Set<u64>>::empty(),
            index.issued() == 0,
    {
        ElementIndex { buckets: HashMap::new(), next: 0 }
    }

    /// The number of elements that have a bucket.
    pub fn len(&self) -> (n: usize)
        ensures
            n == self@.dom().len(),
    {
        assert(self@.dom() =~= self.buckets@.dom());
        self.buckets.len()
    }

    /// The bucket of `element`, if anything was ever listed under it.
    pub fn get(&self, element: u32) -> (bucket: Option<&HashSet<u64>>)
        ensures
            match bucket {
                Some(b) => self@.contains_key(element) && b@ == self@[element],
                None => !self@.contains_key(element),
            },
    {
        self.buckets.get(&element)
    }

    /// Whether `id` is listed under `element`.
    pub fn contains(&self, element: u32, id: u64) -> (listed: bool)
        ensures
            listed == bucket_of(self@, element).contains(id),
    {
        match self.buckets.get(&element) {
            Some(b) => b.contains(&id),
            None => false,
        }
    }

    /// Hands out the next identifier.
    pub fn issue(&mut self) -> (id: u64)
        requires
            old(self).issued() < u64::MAX,
        ensures
            id == old(self).issued(),
            final(self).issued() == old(self).issued() + 1,
            final(self)@ == old(self)@,
    {
        let id = self.next;
        self.next = id + 1;
        id
    }

    /// Lists `id` under every element of `label`.
    pub fn enroll(&mut self, label: &[u32], id: u64)
        ensures
            final(self)@ == enroll(old(self)@, label@, id),
            final(self).issued() == old(self).issued(),
    {
        let mut i: usize = 0;
        while i < label.len()
            invariant
                i <= label.len(),
                self@ == enroll(old(self)@, label@.take(i as int), id),
                self.next == old(self).next,
            decreases label.len() - i,
        {
            let e = label[i];
            let ghost before = self@;
            let ghost held = self.buckets@;
            let mut bucket = match self.buckets.remove(&e) {
                Some(b) => b,
                None => HashSet::new(),
            };
            bucket.insert(id);
            self.buckets.insert(e, bucket);
            proof {
                assert(self.buckets@ == held.remove(e).insert(e, bucket));
                assert forall|x: u32| #[trigger] self@.contains_key(x) <==> (x == e
                    || before.contains_key(x)) by {}
                assert(self@[e] == bucket_of(before, e).insert(id));
                assert forall|x: u32| x != e && before.contains_key(x) implies #[trigger] self@[x]
                    == before[x] by {}
                let seen = label@.take(i as int);
                let next = label@.take(i + 1);
                assert(next =~= seen.push(e));
                assert forall|x: u32| next.contains(x) <==> (seen.contains(x) || x == e) by {
                    if seen.contains(x) {
                        let j = choose|j: int| 0 <= j < seen.len() && seen[j] == x;
                        assert(next[j] == x);
                    }
                    if x == e {
                        assert(next[i as int] == x);
                    }
                }
                assert(self@ =~~= enroll(old(self)@, next, id));
            }
            i += 1;
        }
        assert(label@.take(label@.len() as int) =~= label@);
    }

    /// A copy that can go its own way.
    pub fn snapshot(&self) -> (copy: ElementIndex)
        ensures
            copy@ == self@,
            copy.issued() == self.issued(),
    {
        ElementIndex { buckets: self.buckets.clone(), next: self.next }
    }
}

} // verus!
