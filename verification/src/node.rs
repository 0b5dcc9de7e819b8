use vstd::prelude::*;
use vstd::set_lib::lemma_set_disjoint_lens;
use vstd::string::StringExecFns;
use crate::action::{InsertAction, RemoveAction};

verus! {

/// The character for one decimal digit.
pub open spec fn digit_char(d: nat) -> char {
    if d == 0 {
        '0'
    } else if d == 1 {
        '1'
    } else if d == 2 {
        '2'
    } else if d == 3 {
        '3'
    } else if d == 4 {
        '4'
    } else if d == 5 {
        '5'
    } else if d == 6 {
        '6'
    } else if d == 7 {
        '7'
    } else if d == 8 {
        '8'
    } else {
        '9'
    }
}

/// The decimal digits of `n`, most significant first.
pub open spec fn dec_digits(n: nat) -> Seq<char>
    decreases n,
{
    if n < 10 {
        seq![digit_char(n)]
    } else {
        dec_digits(n / 10).push(digit_char(n % 10))
    }
}

/// One decimal digit as text.
fn digit_str(d: u64) -> (s: &'static str)
    requires
        d < 10,
    ensures
        s@ == seq![digit_char(d as nat)],
{
    proof {
        reveal_strlit("0");
        reveal_strlit("1");
        reveal_strlit("2");
        reveal_strlit("3");
        reveal_strlit("4");
        reveal_strlit("5");
        reveal_strlit("6");
        reveal_strlit("7");
        reveal_strlit("8");
        reveal_strlit("9");
    }
    match d {
        0 => "0",
        1 => "1",
        2 => "2",
        3 => "3",
        4 => "4",
        5 => "5",
        6 => "6",
        7 => "7",
        8 => "8",
        _ => "9",
    }
}

/// Appends the decimal rendering of `x` to the text.
pub(crate) fn push_u64_text(out: &mut String, x: u64)
    ensures
        final(out)@ == old(out)@ + dec_digits(x as nat),
    decreases x,
{
    if x >= 10 {
        push_u64_text(out, x / 10);
    }
    out.append(digit_str(x % 10));
    proof {
        assert(out@ =~= old(out)@ + dec_digits(x as nat));
    }
}

/// Selects which end of the key order a positional removal targets.
pub enum NodePosition {
    First,
    Last,
}

/// An owned, possibly absent child subtree.
pub type NodeLink<V> = Option<Box<Node<V>>>;

/// One node of the binary search tree: a key, its value, and two owned
/// optional subtrees.  Every key in `left` is strictly below `key` and
/// every key in `right` strictly above it; `well_formed` states this.
pub struct Node<V> {
    pub key: u64,
    pub value: V,
    pub left: NodeLink<V>,
    pub right: NodeLink<V>,
}

/// True when `k` is the smallest key of `m`.
pub open spec fn is_min_key<V>(m: Map<u64, V>, k: u64) -> bool {
    m.dom().contains(k) && forall|k2: u64| m.dom().contains(k2) ==> k <= k2
}

/// True when `k` is the largest key of `m`.
pub open spec fn is_max_key<V>(m: Map<u64, V>, k: u64) -> bool {
    m.dom().contains(k) && forall|k2: u64| m.dom().contains(k2) ==> k >= k2
}

/// The sequence of entries that a sequence of borrowed pairs points at.
pub open spec fn deref_entries<V>(s: Seq<(&u64, &V)>) -> Seq<(u64, V)> {
    Seq::new(s.len(), |i: int| (*s[i].0, *s[i].1))
}

/// Relates a map before and after a positional removal: some key `t` — the
/// smallest one for `First`, the largest one for `Last` — was present with
/// value `v`, and afterwards exactly that entry is gone.
pub open spec fn position_removal<V>(
    pre: Map<u64, V>,
    post: Map<u64, V>,
    v: V,
    pos: NodePosition,
) -> bool {
    exists|t: u64|
        {
            &&& #[trigger] pre.dom().contains(t)
            &&& (pos is First ==> is_min_key(pre, t))
            &&& (pos is Last ==> is_max_key(pre, t))
            &&& v == pre[t]
            &&& post == pre.remove(t)
        }
}

/// The replacement policy for a removed node: a leaf is replaced by
/// nothing; a node with exactly one child by that child, promoted in place
/// with its own shape untouched; a node with two children by a subtree
/// whose root is the in-order successor — the node with the smallest key
/// of the right subtree.
pub open spec fn replacement_policy<V>(node: Node<V>, r: NodeLink<V>) -> bool {
    &&& node.left is None && node.right is None ==> r is None
    &&& node.left is Some && node.right is None ==> r == node.left
    &&& node.left is None && node.right is Some ==> r == node.right
    &&& node.left is Some && node.right is Some ==> r is Some && is_min_key(
        Node::link_map(node.right),
        r.unwrap().key,
    )
}

impl<V> Node<V> {
    /// The entries reachable through an optional subtree, as a map.
    pub open spec fn link_map(link: NodeLink<V>) -> Map<u64, V>
        decreases link,
    {
        match link {
            None => Map::empty(),
            Some(node) => node.as_map(),
        }
    }

    /// The entries of this subtree, as a map from keys to values.
    pub open spec fn as_map(self) -> Map<u64, V>
        decreases self,
    {
        Node::link_map(self.left).union_prefer_right(Node::link_map(self.right)).insert(
            self.key,
            self.value,
        )
    }

    /// Well-formedness of an optional subtree.
    pub open spec fn link_wf(link: NodeLink<V>) -> bool
        decreases link,
    {
        match link {
            None => true,
            Some(node) => node.well_formed(),
        }
    }

    /// The search-tree ordering invariant: all keys on the left are strictly
    /// below this node's key, all keys on the right strictly above it, and
    /// both subtrees are themselves well formed.
    pub open spec fn well_formed(self) -> bool
        decreases self,
    {
        &&& forall|k: u64| Node::link_map(self.left).dom().contains(k) ==> k < self.key
        &&& forall|k: u64| Node::link_map(self.right).dom().contains(k) ==> k > self.key
        &&& Node::link_wf(self.left)
        &&& Node::link_wf(self.right)
    }

    /// The entries of an optional subtree, in ascending key order.
    pub open spec fn link_entries(link: NodeLink<V>) -> Seq<(u64, V)>
        decreases link,
    {
        match link {
            None => Seq::empty(),
            Some(node) => node.entries(),
        }
    }

    /// The entries of this subtree as the in-order traversal sequence.
    pub open spec fn entries(self) -> Seq<(u64, V)>
        decreases self,
    {
        Node::link_entries(self.left) + seq![(self.key, self.value)] + Node::link_entries(
            self.right,
        )
    }

    /// The in-order traversal of a well-formed subtree lists exactly the
    /// entries of its map, one position per key, in strictly ascending key
    /// order.
    pub proof fn lemma_link_entries(link: NodeLink<V>)
        requires
            Node::link_wf(link),
        ensures
            ({
                let es = Node::link_entries(link);
                let m = Node::link_map(link);
                &&& m.dom().finite()
                &&& es.len() == m.dom().len()
                &&& forall|i: int|
                    0 <= i < es.len() ==> m.dom().contains(#[trigger] es[i].0) && m[es[i].0]
                        == es[i].1
                &&& forall|i: int, j: int| 0 <= i < j < es.len() ==> es[i].0 < es[j].0
                &&& forall|k2: u64| #[trigger]
                    m.dom().contains(k2) ==> exists|i: int|
                        0 <= i < es.len() && #[trigger] es[i].0 == k2
            }),
        decreases link,
    {
        match link {
            None => {
                assert(Node::link_entries(link) =~= Seq::<(u64, V)>::empty());
                assert(Node::link_map(link).dom() =~= Set::empty());
            },
            Some(node) => {
                Self::lemma_node_entries(*node);
            },
        }
    }

    /// The statement of `lemma_link_entries` for one node's subtree.
    pub proof fn lemma_node_entries(node: Node<V>)
        requires
            node.well_formed(),
        ensures
            ({
                let es = node.entries();
                let m = node.as_map();
                &&& m.dom().finite()
                &&& es.len() == m.dom().len()
                &&& forall|i: int|
                    0 <= i < es.len() ==> m.dom().contains(#[trigger] es[i].0) && m[es[i].0]
                        == es[i].1
                &&& forall|i: int, j: int| 0 <= i < j < es.len() ==> es[i].0 < es[j].0
                &&& forall|k2: u64| #[trigger]
                    m.dom().contains(k2) ==> exists|i: int|
                        0 <= i < es.len() && #[trigger] es[i].0 == k2
            }),
        decreases node,
    {
        Self::lemma_link_entries(node.left);
        Self::lemma_link_entries(node.right);
        let les = Node::link_entries(node.left);
        let res = Node::link_entries(node.right);
        let lm = Node::link_map(node.left);
        let rm = Node::link_map(node.right);
        let es = node.entries();
        let m = node.as_map();
        let k = node.key;
        assert(es == les + seq![(node.key, node.value)] + res);
        assert(m == lm.union_prefer_right(rm).insert(node.key, node.value));
        assert(lm.dom().disjoint(rm.dom())) by {
            assert forall|x: u64| lm.dom().contains(x) implies !rm.dom().contains(x) by {
                assert(x < k);
            }
        }
        lemma_set_disjoint_lens(lm.dom(), rm.dom());
        assert(m.dom() =~= (lm.dom() + rm.dom()).insert(k));
        assert(!(lm.dom() + rm.dom()).contains(k));
        assert(m.dom().len() == lm.dom().len() + rm.dom().len() + 1);
        assert(es.len() == les.len() + 1 + res.len());
        assert forall|i: int|
            0 <= i < es.len() implies m.dom().contains(#[trigger] es[i].0) && m[es[i].0]
            == es[i].1 by {
            if i < les.len() {
                assert(es[i] == les[i]);
                assert(lm.dom().contains(es[i].0));
                assert(es[i].0 < k);
                assert(!rm.dom().contains(es[i].0));
            } else if i == les.len() {
                assert(es[i] == (node.key, node.value));
            } else {
                let j = i - les.len() - 1;
                assert(es[i] == res[j]);
                assert(rm.dom().contains(es[i].0));
                assert(es[i].0 > k);
            }
        }
        assert forall|i: int, j: int| 0 <= i < j < es.len() implies es[i].0 < es[j].0 by {
            if i < les.len() {
                assert(es[i] == les[i]);
                assert(lm.dom().contains(es[i].0));
            }
            if j < les.len() {
                assert(es[j] == les[j]);
                assert(lm.dom().contains(es[j].0));
            }
            if i > les.len() {
                assert(es[i] == res[i - les.len() - 1]);
                assert(rm.dom().contains(es[i].0));
            }
            if j > les.len() {
                assert(es[j] == res[j - les.len() - 1]);
                assert(rm.dom().contains(es[j].0));
            }
        }
        assert forall|k2: u64| #[trigger] m.dom().contains(k2) implies exists|i: int|
            0 <= i < es.len() && #[trigger] es[i].0 == k2 by {
            if k2 == k {
                assert(es[les.len() as int].0 == k2);
            } else if lm.dom().contains(k2) {
                let i = choose|i: int| 0 <= i < les.len() && #[trigger] les[i].0 == k2;
                assert(es[i].0 == k2);
            } else {
                assert(rm.dom().contains(k2));
                let i = choose|i: int| 0 <= i < res.len() && #[trigger] res[i].0 == k2;
                assert(es[les.len() + 1 + i].0 == k2);
            }
        }
    }

    /// Appends every entry of this subtree to the vector as owned pairs, in
    /// in-order sequence, consuming the subtree.
    pub fn fill_owned_vec(self, vec: &mut Vec<(u64, V)>)
        ensures
            final(vec)@ == old(vec)@ + self.entries(),
        decreases self,
    {
        let Node { key, value, left, right } = self;
        if let Some(node) = left {
            (*node).fill_owned_vec(vec);
        }
        vec.push((key, value));
        if let Some(node) = right {
            (*node).fill_owned_vec(vec);
        }
        proof {
            assert(vec@ =~= old(vec)@ + self.entries());
        }
    }

    /// Appends every entry of this subtree to the vector as borrowed pairs,
    /// in in-order sequence.
    pub fn fill_ref_vec<'a>(&'a self, vec: &mut Vec<(&'a u64, &'a V)>)
        ensures
            deref_entries(final(vec)@) == deref_entries(old(vec)@) + self.entries(),
        decreases self,
    {
        if let Some(node) = &self.left {
            node.fill_ref_vec(vec);
        }
        let ghost mid1 = vec@;
        vec.push((&self.key, &self.value));
        let ghost mid2 = vec@;
        if let Some(node) = &self.right {
            node.fill_ref_vec(vec);
        }
        proof {
            assert(deref_entries(mid1) == deref_entries(old(vec)@) + Node::link_entries(
                self.left,
            ));
            assert(deref_entries(mid2) =~= deref_entries(mid1) + seq![(self.key, self.value)]);
            assert(deref_entries(vec@) == deref_entries(mid2) + Node::link_entries(self.right));
            assert(deref_entries(vec@) =~= deref_entries(old(vec)@) + self.entries());
        }
    }

    /// Appends a borrow of every entry of this subtree to the vector, keys
    /// read-only and values mutable, in in-order sequence.  The subtree
    /// keeps its keys and shape; each value ends up as whatever the caller
    /// leaves in the matching reference.
    #[verifier::rlimit(60)]
    pub fn fill_mut_vec<'a>(&'a mut self, vec: &mut Vec<(&'a u64, &'a mut V)>)
        requires
            old(self).well_formed(),
        ensures
            final(self).well_formed(),
            final(self).key == old(self).key,
            final(self).as_map().dom() == old(self).as_map().dom(),
            final(vec)@.len() == old(vec)@.len() + old(self).entries().len(),
            forall|i: int| 0 <= i < old(vec)@.len() ==> final(vec)@[i] == old(vec)@[i],
            forall|i: int|
                0 <= i < old(self).entries().len() ==> *(#[trigger] final(vec)@[old(vec)@.len()
                    + i].0) == old(self).entries()[i].0 && *final(vec)@[old(vec)@.len() + i].1
                    == old(self).entries()[i].1,
            final(self).entries() == Seq::new(
                old(self).entries().len(),
                |i: int|
                    (old(self).entries()[i].0, *final(final(vec)@[old(vec)@.len() + i].1)),
            ),
        decreases *old(self),
    {
        proof {
            assert(old(self).entries() == Node::link_entries(old(self).left) + seq![
                (old(self).key, old(self).value),
            ] + Node::link_entries(old(self).right));
        }
        if let Some(node) = &mut self.left {
            (&mut **node).fill_mut_vec(vec);
        }
        let ghost mid1 = vec@;
        vec.push((&self.key, &mut self.value));
        let ghost mid2 = vec@;
        if let Some(node) = &mut self.right {
            (&mut **node).fill_mut_vec(vec);
        }
        proof {
            let base = old(vec)@.len() as int;
            let les = Node::link_entries(old(self).left);
            let res = Node::link_entries(old(self).right);
            assert(mid1.len() == base + les.len());
            assert(mid2 == mid1.push(mid2[mid1.len() as int]));
            assert(*mid2[base + les.len()].0 == old(self).key);
            assert(*mid2[base + les.len()].1 == old(self).value);
            assert(forall|j: int| 0 <= j < mid2.len() ==> vec@[j] == mid2[j]);
            assert(forall|j: int| 0 <= j < mid1.len() ==> mid2[j] == mid1[j]);
            assert forall|i: int|
                0 <= i < old(self).entries().len() implies *(#[trigger] vec@[base + i].0) == old(
                self,
            ).entries()[i].0 && *vec@[base + i].1 == old(self).entries()[i].1 by {
                if i < les.len() {
                    assert(les == old(self).left.unwrap().entries());
                    assert(vec@[base + i] == mid2[base + i]);
                    assert(mid2[base + i] == mid1[base + i]);
                    assert(mid1[base + i].0 == vec@[base + i].0);
                    assert(mid1[base + i].1 == vec@[base + i].1);
                    assert(old(self).entries()[i] == les[i]);
                } else if i == les.len() {
                    assert(vec@[base + i] == mid2[base + i]);
                    assert(mid2[base + i].0 == vec@[base + i].0);
                    assert(mid2[base + i].1 == vec@[base + i].1);
                    assert(old(self).entries()[i] == (old(self).key, old(self).value));
                } else {
                    let j = i - les.len() - 1;
                    assert(res == old(self).right.unwrap().entries());
                    assert(base + i == mid2.len() + j);
                    assert(vec@[mid2.len() + j].0 == vec@[base + i].0);
                    assert(vec@[mid2.len() + j].1 == vec@[base + i].1);
                    assert(old(self).entries()[i] == res[j]);
                }
            }
            if old(self).left is Some {
                assert(Node::link_map(old(self).left) == old(self).left.unwrap().as_map());
                assert(Node::link_wf(old(self).left));
                assert(old(self).left.unwrap().well_formed());
            } else {
                assert(Node::link_map(old(self).left) =~= Map::empty());
            }
            if old(self).right is Some {
                assert(Node::link_map(old(self).right) == old(self).right.unwrap().as_map());
                assert(Node::link_wf(old(self).right));
                assert(old(self).right.unwrap().well_formed());
            } else {
                assert(Node::link_map(old(self).right) =~= Map::empty());
            }
        }
    }

    /// The structural dump of an optional subtree: `-` for an empty
    /// position, otherwise the node's rendering.
    pub open spec fn link_text(link: NodeLink<V>) -> Seq<char>
        decreases link,
    {
        match link {
            None => seq!['-'],
            Some(node) => node.structure_text(),
        }
    }

    /// The structural dump of this subtree: the left position, the key in
    /// decimal, and the right position, space-separated in parentheses.
    pub open spec fn structure_text(self) -> Seq<char>
        decreases self,
    {
        seq!['('] + Node::link_text(self.left) + seq![' '] + dec_digits(self.key as nat) + seq![
            ' ',
        ] + Node::link_text(self.right) + seq![')']
    }

    /// Appends the structural dump of an optional subtree to the text.
    pub(crate) fn push_link_text(link: &NodeLink<V>, out: &mut String)
        ensures
            final(out)@ == old(out)@ + Node::link_text(*link),
        decreases *link,
    {
        match link {
            None => {
                out.append("-");
                proof {
                    reveal_strlit("-");
                    assert(out@ =~= old(out)@ + Node::link_text(*link));
                }
            },
            Some(node) => {
                (&**node).push_structure_text(out);
            },
        }
    }

    /// Appends this subtree's structural dump to the text.
    pub fn push_structure_text(&self, out: &mut String)
        ensures
            final(out)@ == old(out)@ + self.structure_text(),
        decreases self,
    {
        out.append("(");
        Self::push_link_text(&self.left, out);
        out.append(" ");
        push_u64_text(out, self.key);
        out.append(" ");
        Self::push_link_text(&self.right, out);
        out.append(")");
        proof {
            reveal_strlit("(");
            reveal_strlit(" ");
            reveal_strlit(")");
            assert(out@ =~= old(out)@ + self.structure_text());
        }
    }

    /// A human-readable dump of this subtree's shape and keys, for
    /// diagnostics only; the format is not stable.
    pub fn structure_string(&self) -> (s: String)
        ensures
            s@ == self.structure_text(),
    {
        let mut s = String::new();
        self.push_structure_text(&mut s);
        proof {
            assert(s@ =~= self.structure_text());
        }
        s
    }

    /// A fresh leaf holding the given entry.
    pub fn new(key: u64, value: V) -> (node: Self)
        ensures
            node.well_formed(),
            node.as_map() =~= Map::empty().insert(key, value),
            node.key == key,
            node.value == value,
            node.left is None,
            node.right is None,
    {
        Node { key, value, left: None, right: None }
    }

    /// Descends into an optional subtree, creating a leaf when it is empty.
    fn insert_into_link(link: &mut NodeLink<V>, key: u64, value: V) -> (action: InsertAction)
        requires
            Node::link_wf(*old(link)),
        ensures
            Node::link_wf(*final(link)),
            Node::link_map(*final(link)) =~= Node::link_map(*old(link)).insert(key, value),
            action == InsertAction::Increment <==> !Node::link_map(*old(link)).dom().contains(
                key,
            ),
        decreases *old(link),
    {
        match link.take() {
            None => {
                *link = Some(Box::new(Node::new(key, value)));
                InsertAction::Increment
            },
            Some(mut child) => {
                let action = (&mut *child).insert(key, value);
                *link = Some(child);
                action
            },
        }
    }

    /// Walks down to the position the key belongs at.  An existing node with
    /// this key has its value overwritten in place; otherwise a fresh leaf is
    /// created, which the returned action reports so the map can grow its
    /// count.
    pub fn insert(&mut self, key: u64, value: V) -> (action: InsertAction)
        requires
            old(self).well_formed(),
        ensures
            final(self).well_formed(),
            final(self).as_map() =~= old(self).as_map().insert(key, value),
            final(self).key == old(self).key,
            action == InsertAction::Increment <==> !old(self).as_map().dom().contains(key),
        decreases *old(self),
    {
        if key == self.key {
            self.value = value;
            assert(!Node::link_map(self.left).dom().contains(key));
            assert(!Node::link_map(self.right).dom().contains(key));
            InsertAction::Unchanged
        } else if key > self.key {
            let action = Self::insert_into_link(&mut self.right, key, value);
            assert(!Node::link_map(self.left).dom().contains(key));
            action
        } else {
            let action = Self::insert_into_link(&mut self.left, key, value);
            assert(!Node::link_map(self.right).dom().contains(key));
            action
        }
    }

    /// Descends into an optional subtree for an insert-or-update, creating a
    /// leaf when the subtree is empty.
    fn insert_or_into_link<F: Fn(&V) -> V>(
        link: &mut NodeLink<V>,
        key: u64,
        value: V,
        func: F,
    ) -> (action: InsertAction)
        requires
            Node::link_wf(*old(link)),
            Node::link_map(*old(link)).dom().contains(key) ==> call_requires(
                func,
                (&Node::link_map(*old(link))[key],),
            ),
        ensures
            Node::link_wf(*final(link)),
            if Node::link_map(*old(link)).dom().contains(key) {
                &&& action == InsertAction::Unchanged
                &&& call_ensures(
                    func,
                    (&Node::link_map(*old(link))[key],),
                    Node::link_map(*final(link))[key],
                )
                &&& Node::link_map(*final(link)) =~= Node::link_map(*old(link)).insert(
                    key,
                    Node::link_map(*final(link))[key],
                )
            } else {
                &&& action == InsertAction::Increment
                &&& Node::link_map(*final(link)) =~= Node::link_map(*old(link)).insert(key, value)
            },
        decreases *old(link),
    {
        match link.take() {
            None => {
                *link = Some(Box::new(Node::new(key, value)));
                InsertAction::Increment
            },
            Some(mut child) => {
                let action = (&mut *child).insert_or(key, value, func);
                *link = Some(child);
                action
            },
        }
    }

    /// Walks down like `insert`, but an existing entry is updated by the
    /// supplied function, which receives the current value and returns the
    /// value to store in its place; the plain value is only used when a
    /// fresh leaf is created.
    pub fn insert_or<F: Fn(&V) -> V>(&mut self, key: u64, value: V, func: F) -> (action:
        InsertAction)
        requires
            old(self).well_formed(),
            old(self).as_map().dom().contains(key) ==> call_requires(
                func,
                (&old(self).as_map()[key],),
            ),
        ensures
            final(self).well_formed(),
            final(self).key == old(self).key,
            if old(self).as_map().dom().contains(key) {
                &&& action == InsertAction::Unchanged
                &&& call_ensures(func, (&old(self).as_map()[key],), final(self).as_map()[key])
                &&& final(self).as_map() =~= old(self).as_map().insert(
                    key,
                    final(self).as_map()[key],
                )
            } else {
                &&& action == InsertAction::Increment
                &&& final(self).as_map() =~= old(self).as_map().insert(key, value)
            },
        decreases *old(self),
    {
        if key == self.key {
            proof {
                assert(!Node::link_map(self.left).dom().contains(key));
                assert(!Node::link_map(self.right).dom().contains(key));
            }
            let updated = func(&self.value);
            self.value = updated;
            InsertAction::Unchanged
        } else if key > self.key {
            let action = Self::insert_or_into_link(&mut self.right, key, value, func);
            assert(!Node::link_map(self.left).dom().contains(key));
            action
        } else {
            proof {
                assert(!Node::link_map(self.right).dom().contains(key));
            }
            let action = Self::insert_or_into_link(&mut self.left, key, value, func);
            assert(!Node::link_map(self.right).dom().contains(key));
            action
        }
    }

    /// Looks a key up in an optional subtree.
    fn get_from_link(link: &NodeLink<V>, key: u64) -> (r: Option<&V>)
        requires
            Node::link_wf(*link),
        ensures
            r == (if Node::link_map(*link).dom().contains(key) {
                Some(&Node::link_map(*link)[key])
            } else {
                None
            }),
        decreases *link,
    {
        match link {
            None => None,
            Some(node) => node.get(key),
        }
    }

    /// Binary search by three-way comparison: returns a reference to the
    /// value stored under the key, or `None` when the key is absent.
    pub fn get(&self, key: u64) -> (r: Option<&V>)
        requires
            self.well_formed(),
        ensures
            r == (if self.as_map().dom().contains(key) {
                Some(&self.as_map()[key])
            } else {
                None
            }),
        decreases self,
    {
        if key == self.key {
            Some(&self.value)
        } else if key > self.key {
            proof {
                assert(!Node::link_map(self.left).dom().contains(key));
            }
            Self::get_from_link(&self.right, key)
        } else {
            proof {
                assert(!Node::link_map(self.right).dom().contains(key));
            }
            Self::get_from_link(&self.left, key)
        }
    }

    /// Mutable lookup in an optional subtree.
    fn get_mut_from_link(link: &mut NodeLink<V>, key: u64) -> (r: Option<&mut V>)
        requires
            Node::link_wf(*old(link)),
        ensures
            Node::link_wf(*final(link)),
            if Node::link_map(*old(link)).dom().contains(key) {
                &&& r is Some
                &&& *r.unwrap() == Node::link_map(*old(link))[key]
                &&& Node::link_map(*final(link)) =~= Node::link_map(*old(link)).insert(
                    key,
                    *final(r.unwrap()),
                )
            } else {
                &&& r is None
                &&& *final(link) == *old(link)
            },
        decreases *old(link),
    {
        match link {
            None => None,
            Some(child) => (&mut **child).get_mut(key),
        }
    }

    /// Binary search for a mutable reference to the value stored under the
    /// key; the caller may overwrite the value, and only that entry of the
    /// map changes.
    pub fn get_mut(&mut self, key: u64) -> (r: Option<&mut V>)
        requires
            old(self).well_formed(),
        ensures
            final(self).well_formed(),
            final(self).key == old(self).key,
            if old(self).as_map().dom().contains(key) {
                &&& r is Some
                &&& *r.unwrap() == old(self).as_map()[key]
                &&& final(self).as_map() =~= old(self).as_map().insert(key, *final(r.unwrap()))
            } else {
                &&& r is None
                &&& *final(self) == *old(self)
            },
        decreases *old(self),
    {
        if key == self.key {
            proof {
                assert(!Node::link_map(self.left).dom().contains(key));
                assert(!Node::link_map(self.right).dom().contains(key));
            }
            Some(&mut self.value)
        } else if key > self.key {
            proof {
                assert(!Node::link_map(self.left).dom().contains(key));
            }
            Self::get_mut_from_link(&mut self.right, key)
        } else {
            proof {
                assert(!Node::link_map(self.right).dom().contains(key));
            }
            Self::get_mut_from_link(&mut self.left, key)
        }
    }

    /// The entry with the smallest key: descends left for as long as a left
    /// child exists.
    pub fn first_key_value(&self) -> (r: Option<(&u64, &V)>)
        requires
            self.well_formed(),
        ensures
            r is Some,
            is_min_key(self.as_map(), *r.unwrap().0),
            *r.unwrap().1 == self.as_map()[*r.unwrap().0],
        decreases self,
    {
        match &self.left {
            Some(node) => {
                let r = node.first_key_value();
                proof {
                    let t = *r.unwrap().0;
                    assert(Node::link_map(self.left) == node.as_map());
                    assert(t < self.key);
                    assert(!Node::link_map(self.right).dom().contains(t));
                    assert(self.as_map().dom().contains(t));
                    assert(self.as_map()[t] == Node::link_map(self.left)[t]);
                    assert forall|k2: u64| self.as_map().dom().contains(k2) implies t <= k2 by {
                        if k2 != self.key {
                            assert(Node::link_map(self.left).dom().contains(k2)
                                || Node::link_map(self.right).dom().contains(k2));
                        }
                    }
                }
                r
            },
            None => {
                proof {
                    assert forall|k2: u64| self.as_map().dom().contains(k2) implies self.key
                        <= k2 by {
                        if k2 != self.key {
                            assert(Node::link_map(self.left).dom().contains(k2)
                                || Node::link_map(self.right).dom().contains(k2));
                        }
                    }
                }
                Some((&self.key, &self.value))
            },
        }
    }

    /// The entry with the largest key: descends right for as long as a right
    /// child exists.
    pub fn last_key_value(&self) -> (r: Option<(&u64, &V)>)
        requires
            self.well_formed(),
        ensures
            r is Some,
            is_max_key(self.as_map(), *r.unwrap().0),
            *r.unwrap().1 == self.as_map()[*r.unwrap().0],
        decreases self,
    {
        match &self.right {
            Some(node) => {
                let r = node.last_key_value();
                proof {
                    let t = *r.unwrap().0;
                    assert(Node::link_map(self.right) == node.as_map());
                    assert(t > self.key);
                    assert(!Node::link_map(self.left).dom().contains(t));
                    assert(self.as_map().dom().contains(t));
                    assert(self.as_map()[t] == Node::link_map(self.right)[t]);
                    assert forall|k2: u64| self.as_map().dom().contains(k2) implies t >= k2 by {
                        if k2 != self.key {
                            assert(Node::link_map(self.left).dom().contains(k2)
                                || Node::link_map(self.right).dom().contains(k2));
                        }
                    }
                }
                r
            },
            None => {
                proof {
                    assert forall|k2: u64| self.as_map().dom().contains(k2) implies self.key
                        >= k2 by {
                        if k2 != self.key {
                            assert(Node::link_map(self.left).dom().contains(k2)
                                || Node::link_map(self.right).dom().contains(k2));
                        }
                    }
                }
                Some((&self.key, &self.value))
            },
        }
    }

    /// Which of the two child positions are occupied.
    fn has_children(&self) -> (r: (bool, bool))
        ensures
            r.0 == (self.left is Some),
            r.1 == (self.right is Some),
    {
        (self.left.is_some(), self.right.is_some())
    }

    /// On a leftward walk for the in-order successor, the first node with no
    /// left child is the successor.
    fn is_successor(&self) -> (r: bool)
        ensures
            r == (self.left is None),
    {
        !self.left.is_some()
    }

    /// Detaches and returns the leftmost node of this subtree.  The walk goes
    /// left until a node with no left child is found; that node is unlinked
    /// (its own right subtree, if any, re-attached in its place) and handed
    /// back with both child positions empty.
    fn get_successor(&mut self) -> (r: NodeLink<V>)
        requires
            old(self).well_formed(),
            old(self).left is Some,
        ensures
            final(self).well_formed(),
            final(self).key == old(self).key,
            final(self).value == old(self).value,
            r is Some,
            ({
                let succ = r.unwrap();
                &&& succ.left is None
                &&& succ.right is None
                &&& is_min_key(old(self).as_map(), succ.key)
                &&& succ.value == old(self).as_map()[succ.key]
                &&& final(self).as_map() =~= old(self).as_map().remove(succ.key)
            }),
        decreases *old(self),
    {
        let mut left = self.left.take().unwrap();
        if left.is_successor() {
            // The left child is the successor: unlink it and promote its
            // right subtree into its place.
            let mut successor = left;
            if successor.right.is_some() {
                self.left = successor.right.take();
            }
            proof {
                let lk = successor.key;
                assert(Node::link_wf(old(self).left));
                assert(old(self).left.unwrap().well_formed());
                assert(Node::link_map(old(self).left) == old(self).left.unwrap().as_map());
                assert(Node::link_map(old(self).left.unwrap().left) =~= Map::empty());
                assert(Node::link_map(old(self).left).dom().contains(lk));
                assert(old(self).as_map().dom().contains(lk));
                assert(Node::link_map(self.left) == Node::link_map(
                    old(self).left.unwrap().right,
                ));
                assert forall|k2: u64| old(self).as_map().dom().contains(k2) implies lk <= k2 by {
                    if k2 != old(self).key {
                        assert(Node::link_map(old(self).left).dom().contains(k2)
                            || Node::link_map(old(self).right).dom().contains(k2));
                        if Node::link_map(old(self).left).dom().contains(k2) && k2 != lk {
                            assert(Node::link_map(old(self).left.unwrap().left).dom().contains(k2)
                                || Node::link_map(old(self).left.unwrap().right).dom().contains(
                                k2,
                            ));
                        }
                    }
                }
                assert(lk < old(self).key);
                assert(!Node::link_map(old(self).right).dom().contains(lk));
                assert(old(self).left.unwrap().as_map()[lk] == old(self).left.unwrap().value);
                assert(old(self).as_map()[lk] == Node::link_map(old(self).left)[lk]);
                assert(successor.value == old(self).as_map()[lk]);
                assert forall|k2: u64|
                    old(self).as_map().remove(lk).dom().contains(k2) implies self.as_map().dom().contains(
                        k2,
                    ) && self.as_map()[k2] == old(self).as_map().remove(lk)[k2] by {
                    if k2 != old(self).key {
                        assert(Node::link_map(old(self).left).dom().contains(k2)
                            || Node::link_map(old(self).right).dom().contains(k2));
                        if Node::link_map(old(self).left).dom().contains(k2) {
                            assert(Node::link_map(old(self).left.unwrap().left).dom().contains(k2)
                                || Node::link_map(old(self).left.unwrap().right).dom().contains(
                                k2,
                            ));
                        }
                    }
                }
                assert forall|k2: u64|
                    self.as_map().dom().contains(k2) implies old(self).as_map().remove(
                    lk,
                ).dom().contains(k2) by {
                    if k2 != self.key {
                        assert(Node::link_map(self.left).dom().contains(k2) || Node::link_map(
                            self.right,
                        ).dom().contains(k2));
                        if Node::link_map(self.left).dom().contains(k2) {
                            assert(k2 > lk);
                            assert(Node::link_map(old(self).left).dom().contains(k2));
                        }
                    }
                }
                assert(self.as_map().dom() =~= old(self).as_map().remove(lk).dom());
                assert(self.as_map() =~= old(self).as_map().remove(lk));
                assert(Node::link_wf(old(self).left.unwrap().right));
                assert(Node::link_wf(self.left));
                assert forall|k2: u64| Node::link_map(self.left).dom().contains(k2) implies k2
                    < self.key by {
                    assert(Node::link_map(old(self).left.unwrap().right).dom().contains(k2));
                    assert(Node::link_map(old(self).left).dom().contains(k2));
                }
                assert(self.well_formed());
            }
            Some(successor)
        } else {
            let r = (&mut *left).get_successor();
            self.left = Some(left);
            proof {
                let lk = r.unwrap().key;
                assert(Node::link_wf(old(self).left));
                assert(old(self).left.unwrap().well_formed());
                assert(Node::link_map(old(self).left) == old(self).left.unwrap().as_map());
                assert(Node::link_map(old(self).left).dom().contains(lk));
                assert(old(self).as_map().dom().contains(lk));
                assert forall|k2: u64| old(self).as_map().dom().contains(k2) implies lk <= k2 by {
                    if k2 != old(self).key {
                        assert(Node::link_map(old(self).left).dom().contains(k2)
                            || Node::link_map(old(self).right).dom().contains(k2));
                    }
                }
                assert(lk < old(self).key);
                assert(!Node::link_map(old(self).right).dom().contains(lk));
                assert(old(self).as_map()[lk] == Node::link_map(old(self).left)[lk]);
                assert(Node::link_map(self.left) == old(self).left.unwrap().as_map().remove(lk));
                assert forall|k2: u64|
                    old(self).as_map().remove(lk).dom().contains(k2) implies self.as_map().dom().contains(
                        k2,
                    ) && self.as_map()[k2] == old(self).as_map().remove(lk)[k2] by {
                    if k2 != old(self).key {
                        assert(Node::link_map(old(self).left).dom().contains(k2)
                            || Node::link_map(old(self).right).dom().contains(k2));
                    }
                }
                assert forall|k2: u64|
                    self.as_map().dom().contains(k2) implies old(self).as_map().remove(
                    lk,
                ).dom().contains(k2) by {
                    if k2 != self.key {
                        assert(Node::link_map(self.left).dom().contains(k2) || Node::link_map(
                            self.right,
                        ).dom().contains(k2));
                    }
                }
                assert(self.as_map().dom() =~= old(self).as_map().remove(lk).dom());
                assert(self.as_map() =~= old(self).as_map().remove(lk));
                assert(self.well_formed());
            }
            r
        }
    }

    /// Removes the key from an optional subtree, returning the removed value
    /// (or `None` when the key is absent) after consuming any `UpdateNode`
    /// outcome produced by the child: the discarded node's value is pulled
    /// out, the replacement subtree is spliced into the child position, and
    /// a plain value outcome is passed on.
    fn remove_from_link(link: &mut NodeLink<V>, key: u64) -> (r: Option<V>)
        requires
            Node::link_wf(*old(link)),
        ensures
            Node::link_wf(*final(link)),
            match r {
                Some(v) => Node::link_map(*old(link)).dom().contains(key) && v == Node::link_map(
                    *old(link),
                )[key] && Node::link_map(*final(link)) =~= Node::link_map(*old(link)).remove(key),
                None => !Node::link_map(*old(link)).dom().contains(key) && *final(link) == *old(
                    link,
                ),
            },
        decreases *old(link),
    {
        match link.take() {
            None => None,
            Some(mut child) => {
                let action = (&mut *child).remove(key);
                match action {
                    RemoveAction::Return(opt) => {
                        *link = Some(child);
                        opt
                    },
                    RemoveAction::UpdateNode(new_link) => {
                        let removed = *child;
                        *link = new_link;
                        proof {
                            assert(Node::link_map(*old(link)) == old(link).unwrap().as_map());
                            assert(old(link).unwrap().as_map()[key] == old(link).unwrap().value);
                        }
                        Some(removed.value)
                    },
                }
            },
        }
    }

    /// Seeks the node carrying the key by three-way comparison.  The node
    /// that matches hands its caller an `UpdateNode` outcome carrying its
    /// replacement subtree; every level above passes a plain value outcome
    /// along unchanged.
    pub fn remove(&mut self, key: u64) -> (r: RemoveAction<V>)
        requires
            old(self).well_formed(),
        ensures
            ({
                match r {
                    RemoveAction::Return(opt) => {
                        &&& key != old(self).key
                        &&& final(self).well_formed()
                        &&& final(self).key == old(self).key
                        &&& match opt {
                            Some(v) => old(self).as_map().dom().contains(key) && v == old(
                                self,
                            ).as_map()[key] && final(self).as_map() =~= old(self).as_map().remove(
                                key,
                            ),
                            None => !old(self).as_map().dom().contains(key) && *final(self) == *old(
                                self,
                            ),
                        }
                    },
                    RemoveAction::UpdateNode(link) => {
                        &&& key == old(self).key
                        &&& Node::link_wf(link)
                        &&& Node::link_map(link) =~= old(self).as_map().remove(key)
                        &&& replacement_policy(*old(self), link)
                        &&& final(self).value == old(self).value
                    },
                }
            }),
        decreases *old(self),
    {
        if key == self.key {
            let link = self.replacement_node();
            RemoveAction::UpdateNode(link)
        } else if key > self.key {
            let opt = Self::remove_from_link(&mut self.right, key);
            proof {
                assert(!Node::link_map(self.left).dom().contains(key));
            }
            RemoveAction::Return(opt)
        } else {
            let opt = Self::remove_from_link(&mut self.left, key);
            proof {
                assert(!Node::link_map(self.right).dom().contains(key));
            }
            RemoveAction::Return(opt)
        }
    }

    /// Chooses the subtree that takes this node's place when the node is
    /// removed: nothing for a leaf, the sole child when only one exists, and
    /// otherwise the in-order successor pulled out of the right subtree with
    /// this node's former children re-attached to it.
    fn replacement_node(&mut self) -> (r: NodeLink<V>)
        requires
            old(self).well_formed(),
        ensures
            Node::link_wf(r),
            Node::link_map(r) =~= old(self).as_map().remove(old(self).key),
            final(self).key == old(self).key,
            final(self).value == old(self).value,
            replacement_policy(*old(self), r),
    {
        match self.has_children() {
            (false, false) => {
                proof {
                    assert(Node::link_map(self.left) =~= Map::empty());
                    assert(Node::link_map(self.right) =~= Map::empty());
                    assert(Node::link_map(None::<Box<Node<V>>>) =~= old(self).as_map().remove(
                        old(self).key,
                    ));
                }
                None
            },
            (true, false) => {
                proof {
                    assert(Node::link_map(self.right) =~= Map::empty());
                    assert(Node::link_map(old(self).left) =~= old(self).as_map().remove(
                        old(self).key,
                    ));
                }
                self.left.take()
            },
            (false, true) => {
                proof {
                    assert(Node::link_map(self.left) =~= Map::empty());
                    assert(Node::link_map(old(self).right) =~= old(self).as_map().remove(
                        old(self).key,
                    ));
                }
                self.right.take()
            },
            (true, true) => {
                let left = self.left.take();
                let mut right = self.right.take().unwrap();
                if right.is_successor() {
                    // The right child has no left child, so it is the
                    // in-order successor itself: it inherits the left
                    // subtree and keeps its own right subtree.
                    right.left = left;
                    proof {
                        let k = old(self).key;
                        let rk = right.key;
                        assert(Node::link_wf(old(self).right));
                        assert(old(self).right.unwrap().well_formed());
                        assert(Node::link_map(old(self).right) == old(
                            self,
                        ).right.unwrap().as_map());
                        assert(Node::link_map(old(self).right.unwrap().left) =~= Map::empty());
                        assert(Node::link_wf(old(self).left));
                        assert(Node::link_map(old(self).right).dom().contains(rk));
                        assert(rk > k);
                        assert forall|x: u64|
                            Node::link_map(old(self).right).dom().contains(x) implies rk <= x by {
                            if x != rk {
                                assert(Node::link_map(old(self).right.unwrap().left).dom().contains(
                                    x,
                                ) || Node::link_map(old(self).right.unwrap().right).dom().contains(
                                    x,
                                ));
                            }
                        }
                        assert(is_min_key(Node::link_map(old(self).right), rk));
                        assert forall|x: u64|
                            #[trigger] right.as_map().dom().contains(x) == old(
                            self,
                        ).as_map().remove(k).dom().contains(x) by {
                            if right.as_map().dom().contains(x) && x != rk {
                                assert(Node::link_map(right.left).dom().contains(x)
                                    || Node::link_map(right.right).dom().contains(x));
                                if Node::link_map(right.right).dom().contains(x) {
                                    assert(Node::link_map(old(self).right).dom().contains(x));
                                }
                            }
                            if old(self).as_map().remove(k).dom().contains(x) {
                                assert(Node::link_map(old(self).left).dom().contains(x)
                                    || Node::link_map(old(self).right).dom().contains(x));
                                if Node::link_map(old(self).right).dom().contains(x) && x != rk {
                                    assert(Node::link_map(
                                        old(self).right.unwrap().left,
                                    ).dom().contains(x) || Node::link_map(
                                        old(self).right.unwrap().right,
                                    ).dom().contains(x));
                                }
                            }
                        }
                        assert forall|x: u64|
                            old(self).as_map().remove(k).dom().contains(x) implies right.as_map()[x]
                            == old(self).as_map().remove(k)[x] by {
                            if x != rk {
                                assert(Node::link_map(old(self).left).dom().contains(x)
                                    || Node::link_map(old(self).right).dom().contains(x));
                                if Node::link_map(old(self).right).dom().contains(x) {
                                    assert(Node::link_map(
                                        old(self).right.unwrap().left,
                                    ).dom().contains(x) || Node::link_map(
                                        old(self).right.unwrap().right,
                                    ).dom().contains(x));
                                }
                            }
                        }
                        assert(right.as_map().dom() =~= old(self).as_map().remove(k).dom());
                        assert(right.as_map() =~= old(self).as_map().remove(k));
                        assert forall|x: u64|
                            Node::link_map(right.left).dom().contains(x) implies x < rk by {
                            assert(Node::link_map(old(self).left).dom().contains(x));
                        }
                        assert(right.well_formed());
                    }
                    Some(right)
                } else {
                    // Walk the right subtree leftward for the successor and
                    // promote it, re-attaching both former subtrees.
                    let mut replacement = (&mut *right).get_successor().unwrap();
                    replacement.left = left;
                    replacement.right = Some(right);
                    proof {
                        let k = old(self).key;
                        let sk = replacement.key;
                        assert(Node::link_wf(old(self).right));
                        assert(old(self).right.unwrap().well_formed());
                        assert(Node::link_map(old(self).right) == old(
                            self,
                        ).right.unwrap().as_map());
                        assert(Node::link_wf(old(self).left));
                        assert(Node::link_map(old(self).right).dom().contains(sk));
                        assert(sk > k);
                        assert forall|x: u64|
                            #[trigger] replacement.as_map().dom().contains(x) == old(
                            self,
                        ).as_map().remove(k).dom().contains(x) by {
                            if replacement.as_map().dom().contains(x) && x != sk {
                                assert(Node::link_map(replacement.left).dom().contains(x)
                                    || Node::link_map(replacement.right).dom().contains(x));
                                if Node::link_map(replacement.right).dom().contains(x) {
                                    assert(Node::link_map(old(self).right).dom().contains(x));
                                }
                            }
                            if old(self).as_map().remove(k).dom().contains(x) {
                                assert(Node::link_map(old(self).left).dom().contains(x)
                                    || Node::link_map(old(self).right).dom().contains(x));
                            }
                        }
                        assert forall|x: u64|
                            old(self).as_map().remove(k).dom().contains(x) implies replacement.as_map()[x]
                            == old(self).as_map().remove(k)[x] by {
                            if x != sk {
                                assert(Node::link_map(old(self).left).dom().contains(x)
                                    || Node::link_map(old(self).right).dom().contains(x));
                            }
                        }
                        assert(replacement.as_map().dom() =~= old(self).as_map().remove(k).dom());
                        assert(replacement.as_map() =~= old(self).as_map().remove(k));
                        assert forall|x: u64|
                            Node::link_map(replacement.left).dom().contains(x) implies x < sk by {
                            assert(Node::link_map(old(self).left).dom().contains(x));
                        }
                        assert forall|x: u64|
                            Node::link_map(replacement.right).dom().contains(x) implies x > sk by {
                            assert(Node::link_map(old(self).right).dom().contains(x));
                        }
                        assert(replacement.well_formed());
                    }
                    Some(replacement)
                }
            },
        }
    }

    /// Removes the extreme entry from a non-empty optional subtree,
    /// consuming the child's `UpdateNode` outcome exactly as key-based
    /// removal does.
    fn remove_position_from_link(link: &mut NodeLink<V>, pos: NodePosition) -> (v: V)
        requires
            Node::link_wf(*old(link)),
            (*old(link)) is Some,
        ensures
            Node::link_wf(*final(link)),
            position_removal(
                Node::link_map(*old(link)),
                Node::link_map(*final(link)),
                v,
                pos,
            ),
        decreases *old(link),
    {
        let mut child = link.take().unwrap();
        let action = (&mut *child).remove_position(pos);
        match action {
            RemoveAction::Return(opt) => {
                *link = Some(child);
                opt.unwrap()
            },
            RemoveAction::UpdateNode(new_link) => {
                let removed = *child;
                *link = new_link;
                proof {
                    let pre = Node::link_map(*old(link));
                    assert(pre == old(link).unwrap().as_map());
                    let t = old(link).unwrap().key;
                    assert(pre.dom().contains(t));
                    assert(removed.value == pre[t]) by {
                        assert(old(link).unwrap().as_map()[t] == old(link).unwrap().value);
                    }
                    assert(Node::link_map(*link) == pre.remove(t));
                }
                removed.value
            },
        }
    }

    /// Walks deterministically to the leftmost (`First`) or rightmost
    /// (`Last`) node and removes it through the same outcome protocol as
    /// key-based removal; whenever the subtree is non-empty exactly one
    /// entry is removed.
    pub fn remove_position(&mut self, pos: NodePosition) -> (r: RemoveAction<V>)
        requires
            old(self).well_formed(),
        ensures
            ({
                match r {
                    RemoveAction::Return(opt) => {
                        &&& if pos is First {
                            old(self).left is Some
                        } else {
                            old(self).right is Some
                        }
                        &&& final(self).well_formed()
                        &&& final(self).key == old(self).key
                        &&& opt is Some
                        &&& position_removal(
                            old(self).as_map(),
                            final(self).as_map(),
                            opt.unwrap(),
                            pos,
                        )
                    },
                    RemoveAction::UpdateNode(link) => {
                        &&& if pos is First {
                            old(self).left is None && is_min_key(old(self).as_map(), old(self).key)
                        } else {
                            old(self).right is None && is_max_key(
                                old(self).as_map(),
                                old(self).key,
                            )
                        }
                        &&& Node::link_wf(link)
                        &&& Node::link_map(link) =~= old(self).as_map().remove(old(self).key)
                        &&& replacement_policy(*old(self), link)
                        &&& final(self).value == old(self).value
                        &&& old(self).as_map()[old(self).key] == old(self).value
                    },
                }
            }),
        decreases *old(self),
    {
        let go_deeper = match pos {
            NodePosition::First => self.left.is_some(),
            NodePosition::Last => self.right.is_some(),
        };
        if go_deeper {
            let v = match pos {
                NodePosition::First => Self::remove_position_from_link(&mut self.left, pos),
                NodePosition::Last => Self::remove_position_from_link(&mut self.right, pos),
            };
            proof {
                if pos is First {
                    let pre = Node::link_map(old(self).left);
                    let post = Node::link_map(self.left);
                    let t = choose|t: u64|
                        {
                            &&& #[trigger] pre.dom().contains(t)
                            &&& (pos is First ==> is_min_key(pre, t))
                            &&& (pos is Last ==> is_max_key(pre, t))
                            &&& v == pre[t]
                            &&& post == pre.remove(t)
                        };
                    assert(pre.dom().contains(t) && is_min_key(pre, t) && v == pre[t] && post
                        == pre.remove(t));
                    assert(t < old(self).key);
                    assert(!Node::link_map(old(self).right).dom().contains(t));
                    assert(old(self).as_map().dom().contains(t));
                    assert(v == old(self).as_map()[t]);
                    assert forall|k2: u64| old(self).as_map().dom().contains(k2) implies t <= k2 by {
                        if k2 != old(self).key {
                            assert(Node::link_map(old(self).left).dom().contains(k2)
                                || Node::link_map(old(self).right).dom().contains(k2));
                        }
                    }
                    assert forall|x: u64|
                        #[trigger] self.as_map().dom().contains(x) == old(self).as_map().remove(
                            t,
                        ).dom().contains(x) by {
                        if x != old(self).key {
                            if self.as_map().dom().contains(x) {
                                assert(Node::link_map(self.left).dom().contains(x)
                                    || Node::link_map(self.right).dom().contains(x));
                            }
                            if old(self).as_map().remove(t).dom().contains(x) {
                                assert(Node::link_map(old(self).left).dom().contains(x)
                                    || Node::link_map(old(self).right).dom().contains(x));
                            }
                        }
                    }
                    assert forall|x: u64|
                        old(self).as_map().remove(t).dom().contains(x) implies self.as_map()[x]
                        == old(self).as_map().remove(t)[x] by {
                        if x != old(self).key {
                            assert(Node::link_map(old(self).left).dom().contains(x)
                                || Node::link_map(old(self).right).dom().contains(x));
                        }
                    }
                    assert(self.as_map().dom() =~= old(self).as_map().remove(t).dom());
                    assert(self.as_map() =~= old(self).as_map().remove(t));
                    assert(position_removal(old(self).as_map(), self.as_map(), v, pos));
                    assert(self.well_formed());
                } else {
                    let pre = Node::link_map(old(self).right);
                    let post = Node::link_map(self.right);
                    let t = choose|t: u64|
                        {
                            &&& #[trigger] pre.dom().contains(t)
                            &&& (pos is First ==> is_min_key(pre, t))
                            &&& (pos is Last ==> is_max_key(pre, t))
                            &&& v == pre[t]
                            &&& post == pre.remove(t)
                        };
                    assert(pre.dom().contains(t) && is_max_key(pre, t) && v == pre[t] && post
                        == pre.remove(t));
                    assert(t > old(self).key);
                    assert(!Node::link_map(old(self).left).dom().contains(t));
                    assert(old(self).as_map().dom().contains(t));
                    assert(v == old(self).as_map()[t]);
                    assert forall|k2: u64| old(self).as_map().dom().contains(k2) implies t >= k2 by {
                        if k2 != old(self).key {
                            assert(Node::link_map(old(self).left).dom().contains(k2)
                                || Node::link_map(old(self).right).dom().contains(k2));
                        }
                    }
                    assert forall|x: u64|
                        #[trigger] self.as_map().dom().contains(x) == old(self).as_map().remove(
                            t,
                        ).dom().contains(x) by {
                        if x != old(self).key {
                            if self.as_map().dom().contains(x) {
                                assert(Node::link_map(self.left).dom().contains(x)
                                    || Node::link_map(self.right).dom().contains(x));
                            }
                            if old(self).as_map().remove(t).dom().contains(x) {
                                assert(Node::link_map(old(self).left).dom().contains(x)
                                    || Node::link_map(old(self).right).dom().contains(x));
                            }
                        }
                    }
                    assert forall|x: u64|
                        old(self).as_map().remove(t).dom().contains(x) implies self.as_map()[x]
                        == old(self).as_map().remove(t)[x] by {
                        if x != old(self).key {
                            assert(Node::link_map(old(self).left).dom().contains(x)
                                || Node::link_map(old(self).right).dom().contains(x));
                        }
                    }
                    assert(self.as_map().dom() =~= old(self).as_map().remove(t).dom());
                    assert(self.as_map() =~= old(self).as_map().remove(t));
                    assert(position_removal(old(self).as_map(), self.as_map(), v, pos));
                    assert(self.well_formed());
                }
            }
            RemoveAction::Return(Some(v))
        } else {
            proof {
                if pos is First {
                    assert(Node::link_map(self.left) =~= Map::empty());
                    assert forall|k2: u64|
                        old(self).as_map().dom().contains(k2) implies old(self).key <= k2 by {
                        if k2 != old(self).key {
                            assert(Node::link_map(old(self).left).dom().contains(k2)
                                || Node::link_map(old(self).right).dom().contains(k2));
                        }
                    }
                } else {
                    assert(Node::link_map(self.right) =~= Map::empty());
                    assert forall|k2: u64|
                        old(self).as_map().dom().contains(k2) implies old(self).key >= k2 by {
                        if k2 != old(self).key {
                            assert(Node::link_map(old(self).left).dom().contains(k2)
                                || Node::link_map(old(self).right).dom().contains(k2));
                        }
                    }
                }
                assert(old(self).as_map()[old(self).key] == old(self).value);
            }
            let link = self.replacement_node();
            RemoveAction::UpdateNode(link)
        }
    }
}

} // verus!

