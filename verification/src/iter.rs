use vstd::prelude::*;
use crate::node::deref_entries;

verus! {

// Iterators over the contents of a map.  Each one is constructed by
// materializing every key/value pair of the tree into a vector in a single
// in-order walk; handing entries out then needs no further tree traversal.
// Callers get every entry exactly once, in no promised order.

/// Owning iterator: hands the map's entries out by value, consuming them.
pub struct Iter<V> {
    pairs: Vec<(u64, V)>,
}

impl<V> Iter<V> {
    /// The entries not yet handed out.
    pub closed spec fn remaining(self) -> Seq<(u64, V)> {
        self.pairs@
    }

    /// Wraps a materialized entry list.
    pub(crate) fn from_pairs(pairs: Vec<(u64, V)>) -> (it: Self)
        ensures
            it.remaining() == pairs@,
    {
        Iter { pairs }
    }

    /// Produces one entry, or `None` once everything has been handed out.
    /// The next entry is taken from the front and the last one swapped into
    /// its place, so the remaining entries are reordered but never lost.
    pub fn next(&mut self) -> (r: Option<(u64, V)>)
        ensures
            match r {
                None => old(self).remaining().len() == 0 && final(self).remaining() == old(
                    self,
                ).remaining(),
                Some(pair) => old(self).remaining().len() > 0 && pair == old(self).remaining()[0]
                    && final(self).remaining() == old(self).remaining().update(
                    0,
                    old(self).remaining().last(),
                ).drop_last(),
            },
    {
        if self.pairs.len() == 0 {
            None
        } else {
            let pair = self.pairs.swap_remove(0);
            Some(pair)
        }
    }
}

/// Borrowing iterator: hands out references to keys and values.
pub struct IterRef<'a, V> {
    pairs: Vec<(&'a u64, &'a V)>,
    index: usize,
    len: usize,
}

impl<'a, V> IterRef<'a, V> {
    /// The full entry list this iterator walks over.
    pub closed spec fn entries(self) -> Seq<(u64, V)> {
        deref_entries(self.pairs@)
    }

    /// How many entries have been handed out so far.
    pub closed spec fn position(self) -> int {
        self.index as int
    }

    /// The cursor never passes the end of the entry list.
    pub closed spec fn well_formed(self) -> bool {
        self.index <= self.len && self.len == self.pairs@.len()
    }

    /// Wraps a materialized entry list, with the cursor at the start.
    pub(crate) fn from_pairs(pairs: Vec<(&'a u64, &'a V)>) -> (it: Self)
        ensures
            it.well_formed(),
            it.entries() == deref_entries(pairs@),
            it.position() == 0,
    {
        let len = pairs.len();
        IterRef { pairs, index: 0, len }
    }

    /// Produces the entry under the cursor and advances, or returns `None`
    /// once the cursor has reached the end.
    pub fn next(&mut self) -> (r: Option<(&'a u64, &'a V)>)
        requires
            old(self).well_formed(),
        ensures
            final(self).well_formed(),
            final(self).entries() == old(self).entries(),
            match r {
                None => old(self).position() == old(self).entries().len() && final(self).position()
                    == old(self).position(),
                Some((k, v)) => old(self).position() < old(self).entries().len() && (*k, *v) == old(
                    self,
                ).entries()[old(self).position()] && final(self).position() == old(self).position()
                    + 1,
            },
    {
        if self.index == self.len {
            None
        } else {
            let pair = self.pairs[self.index];
            self.index = self.index + 1;
            Some(pair)
        }
    }
}

/// Mutable iterator: hands out read-only key references paired with
/// mutable value references into the map.
pub struct IterMut<'a, V> {
    pairs: Vec<(&'a u64, &'a mut V)>,
}

impl<'a, V> IterMut<'a, V> {
    /// The borrowed pairs not yet handed out.
    pub closed spec fn remaining(self) -> Seq<(&'a u64, &'a mut V)> {
        self.pairs@
    }

    /// Wraps a materialized list of borrowed pairs.
    pub(crate) fn from_pairs(pairs: Vec<(&'a u64, &'a mut V)>) -> (it: Self)
        ensures
            it.remaining() == pairs@,
    {
        IterMut { pairs }
    }

    /// Produces one borrowed pair, or `None` once everything has been
    /// handed out.  The next pair is taken from the front and the last one
    /// swapped into its place, so pairs come out in no promised order.
    pub fn next(&mut self) -> (r: Option<(&'a u64, &'a mut V)>)
        ensures
            match r {
                None => old(self).remaining().len() == 0 && final(self).remaining() == old(
                    self,
                ).remaining(),
                Some(pair) => old(self).remaining().len() > 0 && pair == old(self).remaining()[0]
                    && final(self).remaining() == old(self).remaining().update(
                    0,
                    old(self).remaining().last(),
                ).drop_last(),
            },
    {
        if self.pairs.len() == 0 {
            None
        } else {
            let pair = self.pairs.swap_remove(0);
            Some(pair)
        }
    }
}

} // verus!
