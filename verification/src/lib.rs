//! A map from `u64` keys to arbitrary values, backed by an unbalanced
//! binary search tree.
//!
//! [`BstMap`] keeps a running element count and an optional root node and
//! forwards every operation to the recursive node algorithms in [`node`].
//! All operations are specified against the map's abstract view, a
//! [`Map`](vstd::map::Map) from keys to values.

use vstd::prelude::*;

pub mod action;
pub mod iter;
pub mod node;

use crate::action::{InsertAction, RemoveAction};
use crate::iter::{Iter, IterMut, IterRef};
use crate::node::{
    dec_digits, deref_entries, is_max_key, is_min_key, position_removal, push_u64_text, Node,
    NodePosition,
};
use vstd::string::StringExecFns;

verus! {

/// A map implemented with a binary search tree: an optional root node and
/// a count of live entries.
pub struct BstMap<V> {
    len: usize,
    head: Option<Node<V>>,
}

impl<V> BstMap<V> {
    /// The entries of the map, as an abstract map from keys to values.
    pub closed spec fn as_map(self) -> Map<u64, V> {
        match self.head {
            None => Map::empty(),
            Some(node) => node.as_map(),
        }
    }

    /// The entries of the map in ascending key order, as laid out by a full
    /// in-order traversal.
    pub closed spec fn entries(self) -> Seq<(u64, V)> {
        match self.head {
            None => Seq::empty(),
            Some(node) => node.entries(),
        }
    }

    /// The container invariant: the tree satisfies the search ordering and
    /// the stored count equals the number of reachable entries.
    pub closed spec fn well_formed(self) -> bool {
        &&& match self.head {
            None => true,
            Some(node) => node.well_formed(),
        }
        &&& self@.dom().finite()
        &&& self.len == self@.dom().len()
    }

    /// Creates an empty map.
    pub fn new() -> (map: Self)
        ensures
            map.well_formed(),
            map@ == Map::<u64, V>::empty(),
    {
        BstMap { len: 0, head: None }
    }

    /// Drops every entry, leaving the map empty.
    pub fn clear(&mut self)
        ensures
            final(self).well_formed(),
            final(self)@ == Map::<u64, V>::empty(),
    {
        self.len = 0;
        self.head = None;
    }

    /// Reports whether the map holds no entries.
    pub fn is_empty(&self) -> (empty: bool)
        requires
            self.well_formed(),
        ensures
            empty <==> self@ == Map::<u64, V>::empty(),
    {
        proof {
            if self.len == 0 {
                assert(self@.dom() =~= Set::empty());
                assert(self@ =~= Map::empty());
            }
        }
        self.len == 0
    }

    /// Reports the number of entries.
    pub fn len(&self) -> (n: usize)
        requires
            self.well_formed(),
        ensures
            n == self@.dom().len(),
    {
        self.len
    }

    /// Places the pair in the tree.  An absent key gets a fresh node and the
    /// count grows by one; a present key has its old value overwritten in
    /// place and the count stays as it is.
    pub fn insert(&mut self, key: u64, value: V)
        requires
            old(self).well_formed(),
            old(self)@.dom().len() < usize::MAX,
        ensures
            final(self).well_formed(),
            final(self)@ == old(self)@.insert(key, value),
    {
        match self.head.take() {
            Some(mut node) => {
                let action = node.insert(key, value);
                self.head = Some(node);
                if let InsertAction::Increment = action {
                    self.len = self.len + 1;
                }
            },
            None => {
                self.head = Some(Node::new(key, value));
                self.len = self.len + 1;
            },
        }
    }

    /// The diagnostic dump of the container: the element count in decimal,
    /// a space, then the tree's structural dump.
    pub closed spec fn structure_text(self) -> Seq<char> {
        dec_digits(self.len as nat) + seq![' '] + (match self.head {
            None => seq!['-'],
            Some(node) => node.structure_text(),
        })
    }

    /// A human-readable dump of the element count and the tree's shape and
    /// keys, for diagnostics only; the format is not stable.
    pub fn structure_string(&self) -> (s: String)
        ensures
            s@ == self.structure_text(),
    {
        let mut s = String::new();
        push_u64_text(&mut s, self.len as u64);
        s.append(" ");
        match &self.head {
            None => s.append("-"),
            Some(node) => node.push_structure_text(&mut s),
        }
        proof {
            reveal_strlit(" ");
            reveal_strlit("-");
            assert(s@ =~= self.structure_text());
        }
        s
    }

    /// Returns an iterator over the entries as borrowed key/value pairs.
    /// Every entry comes out exactly once; no ordering is promised.
    pub fn iter(&self) -> (it: IterRef<V>)
        requires
            self.well_formed(),
        ensures
            it.well_formed(),
            it.entries() == self.entries(),
            it.position() == 0,
    {
        let mut pairs: Vec<(&u64, &V)> = Vec::new();
        proof {
            assert(deref_entries(pairs@) =~= Seq::<(u64, V)>::empty());
        }
        if let Some(node) = &self.head {
            node.fill_ref_vec(&mut pairs);
        }
        proof {
            assert(deref_entries(pairs@) =~= self.entries());
        }
        IterRef::from_pairs(pairs)
    }

    /// Returns an iterator over the entries that leaves keys read-only but
    /// hands out mutable references to the values: whatever the caller
    /// writes through them becomes those entries' values, and the key set
    /// does not change.  Every entry comes out exactly once; no ordering is
    /// promised.
    pub fn iter_mut(&mut self) -> (it: IterMut<V>)
        requires
            old(self).well_formed(),
        ensures
            final(self).well_formed(),
            final(self)@.dom() == old(self)@.dom(),
            it.remaining().len() == old(self).entries().len(),
            forall|i: int|
                0 <= i < old(self).entries().len() ==> *(#[trigger] it.remaining()[i].0) == old(
                    self,
                ).entries()[i].0 && *it.remaining()[i].1 == old(self).entries()[i].1,
            final(self).entries() == Seq::new(
                old(self).entries().len(),
                |i: int| (old(self).entries()[i].0, *final(it.remaining()[i].1)),
            ),
    {
        let mut pairs: Vec<(&u64, &mut V)> = Vec::new();
        match &mut self.head {
            Some(node) => node.fill_mut_vec(&mut pairs),
            None => {},
        }
        proof {
            assert forall|i: int|
                0 <= i < old(self).entries().len() implies *(#[trigger] pairs@[i].0) == old(
                self,
            ).entries()[i].0 && *pairs@[i].1 == old(self).entries()[i].1 by {
                assert(pairs@[0 + i].0 == pairs@[i].0);
                assert(pairs@[0 + i].1 == pairs@[i].1);
            }
        }
        IterMut::from_pairs(pairs)
    }

    /// Consumes the map and returns an iterator that hands every entry out
    /// by value.  Every entry comes out exactly once; no ordering is
    /// promised.
    pub fn into_iter(self) -> (it: Iter<V>)
        requires
            self.well_formed(),
        ensures
            it.remaining() == self.entries(),
    {
        let mut pairs: Vec<(u64, V)> = Vec::new();
        let BstMap { len: _, head } = self;
        if let Some(node) = head {
            node.fill_owned_vec(&mut pairs);
        }
        proof {
            assert(pairs@ =~= self.entries());
        }
        Iter::from_pairs(pairs)
    }

    /// Places the pair in the tree like `insert`, except that an existing
    /// entry is updated by the supplied function — it receives the current
    /// value and returns the value to store — instead of being overwritten
    /// with the supplied value.
    pub fn insert_or<F: Fn(&V) -> V>(&mut self, key: u64, value: V, func: F)
        requires
            old(self).well_formed(),
            old(self)@.dom().len() < usize::MAX,
            old(self)@.dom().contains(key) ==> call_requires(func, (&old(self)@[key],)),
        ensures
            final(self).well_formed(),
            if old(self)@.dom().contains(key) {
                &&& call_ensures(func, (&old(self)@[key],), final(self)@[key])
                &&& final(self)@ == old(self)@.insert(key, final(self)@[key])
            } else {
                final(self)@ == old(self)@.insert(key, value)
            },
    {
        match self.head.take() {
            Some(mut node) => {
                let action = node.insert_or(key, value, func);
                self.head = Some(node);
                if let InsertAction::Increment = action {
                    self.len = self.len + 1;
                }
            },
            None => {
                self.head = Some(Node::new(key, value));
                self.len = self.len + 1;
            },
        }
    }

    /// Returns a reference to the value stored under the key, or `None`
    /// when the key is absent.
    pub fn get(&self, key: u64) -> (r: Option<&V>)
        requires
            self.well_formed(),
        ensures
            r == (if self@.dom().contains(key) {
                Some(&self@[key])
            } else {
                None
            }),
    {
        if let Some(node) = &self.head {
            node.get(key)
        } else {
            None
        }
    }

    /// Returns a mutable reference to the value stored under the key, or
    /// `None` when the key is absent; whatever the caller writes through
    /// the reference becomes that entry's value, and nothing else changes.
    pub fn get_mut(&mut self, key: u64) -> (r: Option<&mut V>)
        requires
            old(self).well_formed(),
        ensures
            final(self).well_formed(),
            if old(self)@.dom().contains(key) {
                &&& r is Some
                &&& *r.unwrap() == old(self)@[key]
                &&& final(self)@ == old(self)@.insert(key, *final(r.unwrap()))
            } else {
                &&& r is None
                &&& *final(self) == *old(self)
            },
    {
        match &mut self.head {
            Some(node) => node.get_mut(key),
            None => None,
        }
    }

    /// Borrows the value for a key that is known to be present; absence is
    /// a caller error, ruled out by the precondition.
    pub fn index(&self, key: u64) -> (v: &V)
        requires
            self.well_formed(),
            self@.dom().contains(key),
        ensures
            *v == self@[key],
    {
        self.get(key).unwrap()
    }

    /// The entry with the smallest key, or `None` for an empty map.
    pub fn first_key_value(&self) -> (r: Option<(&u64, &V)>)
        requires
            self.well_formed(),
        ensures
            match r {
                None => self@ == Map::<u64, V>::empty(),
                Some((k, v)) => is_min_key(self@, *k) && *v == self@[*k],
            },
    {
        if let Some(node) = &self.head {
            node.first_key_value()
        } else {
            None
        }
    }

    /// The entry with the largest key, or `None` for an empty map.
    pub fn last_key_value(&self) -> (r: Option<(&u64, &V)>)
        requires
            self.well_formed(),
        ensures
            match r {
                None => self@ == Map::<u64, V>::empty(),
                Some((k, v)) => is_max_key(self@, *k) && *v == self@[*k],
            },
    {
        if let Some(node) = &self.head {
            node.last_key_value()
        } else {
            None
        }
    }

    /// Detaches the entry stored under the key and returns its value, or
    /// `None` — leaving the map untouched — when the key is absent.
    pub fn remove(&mut self, key: u64) -> (r: Option<V>)
        requires
            old(self).well_formed(),
        ensures
            final(self).well_formed(),
            match r {
                Some(v) => old(self)@.dom().contains(key) && v == old(self)@[key] && final(self)@
                    == old(self)@.remove(key),
                None => !old(self)@.dom().contains(key) && *final(self) == *old(self),
            },
    {
        match self.head.take() {
            None => None,
            Some(mut node) => {
                let action = node.remove(key);
                match action {
                    RemoveAction::Return(value) => {
                        self.head = Some(node);
                        if value.is_some() {
                            self.len = self.len - 1;
                        }
                        value
                    },
                    RemoveAction::UpdateNode(link) => {
                        proof {
                            assert(old(self).head.unwrap().as_map()[key] == old(
                                self,
                            ).head.unwrap().value);
                        }
                        self.len = self.len - 1;
                        let old_head = node;
                        self.head = match link {
                            // The head node is stored unboxed, so the
                            // replacement subtree sheds its box here.
                            Some(b) => Some(*b),
                            None => None,
                        };
                        Some(old_head.value)
                    },
                }
            },
        }
    }

    /// Removes the entry with the smallest key and returns its value, or
    /// `None` for an empty map.
    pub fn remove_first(&mut self) -> (r: Option<V>)
        requires
            old(self).well_formed(),
        ensures
            final(self).well_formed(),
            match r {
                Some(v) => position_removal(old(self)@, final(self)@, v, NodePosition::First),
                None => old(self)@ == Map::<u64, V>::empty() && *final(self) == *old(self),
            },
    {
        self._remove_position(NodePosition::First)
    }

    /// Removes the entry with the largest key and returns its value, or
    /// `None` for an empty map.
    pub fn remove_last(&mut self) -> (r: Option<V>)
        requires
            old(self).well_formed(),
        ensures
            final(self).well_formed(),
            match r {
                Some(v) => position_removal(old(self)@, final(self)@, v, NodePosition::Last),
                None => old(self)@ == Map::<u64, V>::empty() && *final(self) == *old(self),
            },
    {
        self._remove_position(NodePosition::Last)
    }

    /// Shared implementation of the two positional removals: as soon as the
    /// map has a head node, exactly one entry is going to be removed.
    fn _remove_position(&mut self, position: NodePosition) -> (r: Option<V>)
        requires
            old(self).well_formed(),
        ensures
            final(self).well_formed(),
            match r {
                Some(v) => position_removal(old(self)@, final(self)@, v, position),
                None => old(self)@ == Map::<u64, V>::empty() && *final(self) == *old(self),
            },
    {
        match self.head.take() {
            None => None,
            Some(mut node) => {
                proof {
                    assert(old(self)@.dom().contains(old(self).head.unwrap().key));
                }
                self.len = self.len - 1;
                let action = node.remove_position(position);
                match action {
                    RemoveAction::Return(value) => {
                        self.head = Some(node);
                        value
                    },
                    RemoveAction::UpdateNode(link) => {
                        proof {
                            let t = old(self).head.unwrap().key;
                            assert(old(self)@.dom().contains(t));
                            assert(old(self)@[t] == old(self).head.unwrap().value);
                        }
                        let old_head = node;
                        self.head = match link {
                            Some(b) => Some(*b),
                            None => None,
                        };
                        Some(old_head.value)
                    },
                }
            },
        }
    }
}

impl<V> View for BstMap<V> {
    type V = Map<u64, V>;

    open spec fn view(&self) -> Map<u64, V> {
        self.as_map()
    }
}

/// A full traversal of a well-formed map produces exactly its entries:
/// the sequence is as long as the element count, every listed pair is an
/// entry of the map, keys strictly ascend (so no key appears twice), and
/// every key of the map appears somewhere.
pub proof fn lemma_traversal_exact<V>(m: BstMap<V>)
    requires
        m.well_formed(),
    ensures
        m.entries().len() == m@.dom().len(),
        forall|i: int|
            0 <= i < m.entries().len() ==> m@.dom().contains(#[trigger] m.entries()[i].0)
                && m@[m.entries()[i].0] == m.entries()[i].1,
        forall|i: int, j: int| 0 <= i < j < m.entries().len() ==> m.entries()[i].0
            < m.entries()[j].0,
        forall|k: u64| #[trigger]
            m@.dom().contains(k) ==> exists|i: int|
                0 <= i < m.entries().len() && #[trigger] m.entries()[i].0 == k,
{
    match m.head {
        None => {
            assert(m.entries() =~= Seq::<(u64, V)>::empty());
            assert(m@.dom() =~= Set::empty());
        },
        Some(node) => {
            Node::lemma_node_entries(node);
        },
    }
}

/// Inserting under one key twice leaves a single entry for that key,
/// holding the most recently inserted value, whatever was inserted first.
pub proof fn lemma_insert_twice<V>(m: Map<u64, V>, key: u64, v1: V, v2: V)
    ensures
        m.insert(key, v1).insert(key, v2) == m.insert(key, v2),
        m.insert(key, v2).dom().contains(key),
        m.insert(key, v2)[key] == v2,
{
    assert(m.insert(key, v1).insert(key, v2) =~= m.insert(key, v2));
}

/// Removing a present key shrinks the element count by exactly one and
/// leaves the key absent.
pub proof fn lemma_remove_count<V>(pre: Map<u64, V>, post: Map<u64, V>, key: u64)
    requires
        pre.dom().finite(),
        pre.dom().contains(key),
        post == pre.remove(key),
    ensures
        post.dom().len() == pre.dom().len() - 1,
        !post.dom().contains(key),
{
}

/// A map has at most one minimal key, so the entry that `first_key_value`
/// reports is exactly the one that `remove_first` removes.
pub proof fn lemma_min_key_unique<V>(m: Map<u64, V>, k1: u64, k2: u64)
    requires
        is_min_key(m, k1),
        is_min_key(m, k2),
    ensures
        k1 == k2,
{
}

/// A map has at most one maximal key, so the entry that `last_key_value`
/// reports is exactly the one that `remove_last` removes.
pub proof fn lemma_max_key_unique<V>(m: Map<u64, V>, k1: u64, k2: u64)
    requires
        is_max_key(m, k1),
        is_max_key(m, k2),
    ensures
        k1 == k2,
{
}

} // verus!

