//! Nodes of the persistent trie.
//!
//! A node is never changed once it is built. Counting a key builds new nodes
//! along the path that the key takes and shares every other node with the
//! forest it started from.

use std::rc::Rc;
use vstd::prelude::*;
use vstd::slice::slice_to_vec;
use crate::forest::Forest;
use crate::index::{ElementIndex, enroll, enroll_all, lemma_enroll_all_one, lemma_enroll_all_two};
use crate::prefix::{agree, common_prefix, common_prefix_len, part_at};
use crate::traversal::lemma_lookup_exact;

verus! {

/// One edge of a persistent trie, with the chain that follows it and the
/// forest below it.
#[derive(Debug, PartialEq, Eq, Hash)]
pub struct Node<T> {
    id: u64,
    key: Vec<u32>,
    value: Option<T>,
    child: Option<Rc<Node<T>>>,
    sibling: Option<Rc<Node<T>>>,
}

/// A second handle on a shared value.
///
/// Calls `Rc::clone`, which hands back a pointer to the same allocation: the
/// value behind the new handle is the value behind the old one.
#[verifier::external_body]
fn share<T>(handle: &Rc<T>) -> (shared: Rc<T>)
    ensures
        shared == *handle,
{
    Rc::clone(handle)
}

/// A second handle on the node behind `link`, if there is one.
pub(crate) fn share_link<T>(link: &Option<Rc<Node<T>>>) -> (shared: Option<Rc<Node<T>>>)
    ensures
        shared == *link,
{
    match link {
        Some(node) => Some(share(node)),
        None => None,
    }
}

impl<T> View for Node<T> {
    type V = Forest<T>;

    /// The forest that starts at this node, with the values of its nodes.
    closed spec fn view(&self) -> Forest<T> {
        self.model()
    }
}

impl<T> Node<T> {
    spec fn model(self) -> Forest<T>
        decreases self,
    {
        Forest::Fork {
            label: self.key@,
            value: self.value,
            child: Box::new(Self::link_model(self.child)),
            sibling: Box::new(Self::link_model(self.sibling)),
        }
    }

    spec fn link_model(link: Option<Rc<Node<T>>>) -> Forest<T>
        decreases link,
    {
        match link {
            None => Forest::Empty,
            Some(node) => node.model(),
        }
    }

    /// The forest that starts at this node, with the identifiers of its nodes
    /// in place of their values.
    pub closed spec fn tags(&self) -> Forest<u64>
        decreases self,
    {
        Forest::Fork {
            label: self.key@,
            value: Some(self.id),
            child: Box::new(Self::link_tags(self.child)),
            sibling: Box::new(Self::link_tags(self.sibling)),
        }
    }

    spec fn link_tags(link: Option<Rc<Node<T>>>) -> Forest<u64>
        decreases link,
    {
        match link {
            None => Forest::Empty,
            Some(node) => node.tags(),
        }
    }

    /// The forest behind `link`, with the values of its nodes; empty where
    /// the link is.
    pub open spec fn forest_of(link: Option<Rc<Node<T>>>) -> Forest<T> {
        match link {
            None => Forest::Empty,
            Some(node) => node@,
        }
    }

    /// The forest behind `link`, with the identifiers of its nodes; empty
    /// where the link is.
    pub open spec fn tags_of(link: Option<Rc<Node<T>>>) -> Forest<u64> {
        match link {
            None => Forest::Empty,
            Some(node) => node.tags(),
        }
    }

    /// The identifier under which the element index lists this node.
    pub open spec fn ident(&self) -> u64 {
        self.tags().value().unwrap()
    }

    /// The values and the identifiers stand on the same edges.
    pub proof fn lemma_alike(&self)
        ensures
            self@ is Fork,
            self.tags() is Fork,
            self.tags().value() is Some,
            self@.alike(self.tags()),
        decreases self,
    {
        if let Some(node) = self.child {
            node.lemma_alike();
        }
        if let Some(node) = self.sibling {
            node.lemma_alike();
        }
        assert(Self::forest_of(self.child).alike(Self::tags_of(self.child)));
        assert(Self::forest_of(self.sibling).alike(Self::tags_of(self.sibling)));
    }

    /// A node that carries `value` under `key`, with nothing below or beside
    /// it, and with `id` for its identifier.
    pub fn new(key: Vec<u32>, value: T, id: u64) -> (node: Node<T>)
        ensures
            node@ == Forest::leaf(key@, value),
            node.tags() == Forest::leaf(key@, id),
    {
        Node { id, key, value: Some(value), child: None, sibling: None }
    }

    /// The identifier under which the element index lists this node.
    pub fn id(&self) -> (id: u64)
        ensures
            id == self.ident(),
    {
        self.id
    }

    /// The run of key elements on this edge.
    pub fn label(&self) -> (label: &[u32])
        ensures
            self@ is Fork,
            self.tags() is Fork,
            label@ == self@.label(),
            label@ == self.tags().label(),
    {
        self.key.as_slice()
    }

    /// The value stored at this node, if it is more than a branching point.
    pub fn value(&self) -> (value: Option<&T>)
        ensures
            match value {
                Some(v) => self@.value() == Some(*v),
                None => self@.value() is None,
            },
    {
        self.value.as_ref()
    }

    /// The first of the edges that extend this one.
    pub fn child(&self) -> (child: Option<&Node<T>>)
        ensures
            match child {
                Some(node) => node@ == self@.child() && node.tags() == self.tags().child(),
                None => self@.child() is Empty && self.tags().child() is Empty,
            },
    {
        match &self.child {
            Some(node) => Some(&**node),
            None => None,
        }
    }

    /// The next alternative to this edge.
    pub fn sibling(&self) -> (sibling: Option<&Node<T>>)
        ensures
            match sibling {
                Some(node) => node@ == self@.sibling() && node.tags() == self.tags().sibling(),
                None => self@.sibling() is Empty && self.tags().sibling() is Empty,
            },
    {
        match &self.sibling {
            Some(node) => Some(&**node),
            None => None,
        }
    }

    /// How many leading elements this node's label and `other` have in common.
    pub fn common_prefix(&self, other: &[u32]) -> (n: usize)
        ensures
            n == common_prefix_len(self@.label(), other@),
            agree(self@.label(), other@, n as nat),
            part_at(self@.label(), other@, n as nat),
    {
        common_prefix(self.key.as_slice(), other)
    }

    /// The node whose accumulated label is exactly `key`, in the forest
    /// behind `link`.
    pub(crate) fn find_in<'a>(link: &'a Option<Rc<Node<T>>>, key: &[u32]) -> (found: Option<
        &'a Node<T>,
    >)
        ensures
            match found {
                Some(node) => {
                    &&& Self::forest_of(*link).lookup(key@) == Some(node@)
                    &&& Self::tags_of(*link).lookup(key@) == Some(node.tags())
                },
                None => {
                    &&& Self::forest_of(*link).lookup(key@) is None
                    &&& Self::tags_of(*link).lookup(key@) is None
                },
            },
        decreases *link, 0nat,
    {
        match link {
            Some(node) => node.find(key),
            None => None,
        }
    }

    /// The node whose accumulated label is exactly `key`, searched from this
    /// node through its chain and the forest below.
    ///
    /// A label that shares nothing with the key sends the search on to the
    /// next sibling. A label that the key runs through sends it below, with
    /// what is left of the key. A label that the key leaves halfway, or ends
    /// inside of, ends the search with nothing found.
    pub fn find(&self, key: &[u32]) -> (found: Option<&Node<T>>)
        ensures
            match found {
                Some(node) => {
                    &&& self@.lookup(key@) == Some(node@)
                    &&& self.tags().lookup(key@) == Some(node.tags())
                },
                None => self@.lookup(key@) is None && self.tags().lookup(key@) is None,
            },
            self@.well_formed() ==> (found is Some <==> self@.has_path(key@)),
        decreases self, 1nat,
    {
        proof {
            if self@.well_formed() {
                lemma_lookup_exact(self@, key@);
            }
        }
        let prefix = self.common_prefix(key);
        if prefix == 0 {
            Self::find_in(&self.sibling, key)
        } else if prefix < self.key.len() {
            None
        } else if prefix < key.len() {
            Self::find_in(&self.child, &key[prefix..key.len()])
        } else {
            Some(self)
        }
    }
}

impl Node<u32> {
    /// A node put together from its parts.
    fn assemble(
        id: u64,
        label: &[u32],
        value: Option<u32>,
        child: Option<Rc<Node<u32>>>,
        sibling: Option<Rc<Node<u32>>>,
    ) -> (node: Node<u32>)
        ensures
            node@ == (Forest::Fork {
                label: label@,
                value,
                child: Box::new(Self::forest_of(child)),
                sibling: Box::new(Self::forest_of(sibling)),
            }),
            node.tags() == (Forest::Fork {
                label: label@,
                value: Some(id),
                child: Box::new(Self::tags_of(child)),
                sibling: Box::new(Self::tags_of(sibling)),
            }),
    {
        Node { id, key: slice_to_vec(label), value, child, sibling }
    }

    /// A new node for `rest` with the count one, listed in `index` under the
    /// next identifier; nothing where `rest` is empty.
    fn hang(rest: &[u32], index: &mut ElementIndex) -> (link: Option<Rc<Node<u32>>>)
        requires
            rest@.len() > 0 ==> old(index).issued() < u64::MAX,
        ensures
            Self::forest_of(link) == Forest::hung(rest@, 1u32),
            Self::tags_of(link) == Forest::hung(rest@, old(index).issued() as u64),
            rest@.len() == 0 ==> *final(index) == *old(index),
            rest@.len() > 0 ==> {
                &&& final(index)@ == enroll(old(index)@, rest@, old(index).issued() as u64)
                &&& final(index).issued() == old(index).issued() + 1
            },
    {
        if rest.len() == 0 {
            None
        } else {
            let id = index.issue();
            index.enroll(rest, id);
            Some(Rc::new(Self::assemble(id, rest, Some(1u32), None, None)))
        }
    }

    /// Counts `key` in the forest behind `link`.
    pub(crate) fn grow(
        link: &Option<Rc<Node<u32>>>,
        key: &[u32],
        index: &mut ElementIndex,
    ) -> (grown: Option<Rc<Node<u32>>>)
        requires
            key@.len() > 0,
            Self::forest_of(*link).countable(key@),
            old(index).issued() + Self::forest_of(*link).created(key@).len() <= u64::MAX,
        ensures
            Self::forest_of(grown) == Self::forest_of(*link).count(key@),
            Self::tags_of(grown) == Self::tags_of(*link).tag(key@, old(index).issued()),
            final(index)@ == enroll_all(
                old(index)@,
                Self::forest_of(*link).created(key@),
                old(index).issued(),
            ),
            final(index).issued() == old(index).issued() + Self::forest_of(*link).created(
                key@,
            ).len(),
        decreases *link, 0nat,
    {
        match link {
            Some(node) => Some(Rc::new(node.append(key, index))),
            None => {
                proof {
                    lemma_enroll_all_one(old(index)@, key@, old(index).issued());
                }
                Self::hang(key, index)
            },
        }
    }

    /// Counts one more occurrence of `key` in the forest that starts at this
    /// node, and returns the first node of the forest that results.
    ///
    /// Nothing that `self` holds is changed. The nodes on the path of the key
    /// are built anew, each under the identifier of the node it stands for;
    /// all others are shared. A node that is created (the branching point
    /// where a label is cut, and the node for what is left of the key) gets
    /// the next identifier and is listed in `index` under the elements of its
    /// label.
    pub fn append(&self, key: &[u32], index: &mut ElementIndex) -> (grown: Node<u32>)
        requires
            self@.countable(key@),
            old(index).issued() + self@.created(key@).len() <= u64::MAX,
        ensures
            grown@ == self@.count(key@),
            grown.tags() == self.tags().tag(key@, old(index).issued()),
            final(index)@ == enroll_all(old(index)@, self@.created(key@), old(index).issued()),
            final(index).issued() == old(index).issued() + self@.created(key@).len(),
        decreases self, 1nat,
    {
        let label = self.key.as_slice();
        if key.len() == 0 {
            let child = share_link(&self.child);
            return Self::assemble(self.id, label, self.value, child, share_link(&self.sibling));
        }
        let prefix = common_prefix(label, key);
        if prefix == 0 {
            let sibling = Self::grow(&self.sibling, key, index);
            return Self::assemble(self.id, label, self.value, share_link(&self.child), sibling);
        }
        let count = Some(self.value.unwrap() + 1);
        let sibling = share_link(&self.sibling);
        let rest = &key[prefix..key.len()];
        if prefix < label.len() {
            let front = &label[0..prefix];
            let back = &label[prefix..label.len()];
            proof {
                if rest@.len() > 0 {
                    lemma_enroll_all_two(old(index)@, front@, rest@, old(index).issued());
                } else {
                    lemma_enroll_all_one(old(index)@, front@, old(index).issued());
                }
            }
            let id = index.issue();
            index.enroll(front, id);
            let beside = Self::hang(rest, index);
            let below = Self::assemble(self.id, back, self.value, share_link(&self.child), beside);
            Self::assemble(id, front, count, Some(Rc::new(below)), sibling)
        } else if prefix < key.len() {
            let child = Self::grow(&self.child, rest, index);
            Self::assemble(self.id, label, count, child, sibling)
        } else {
            Self::assemble(self.id, label, count, share_link(&self.child), sibling)
        }
    }
}

} // verus!
