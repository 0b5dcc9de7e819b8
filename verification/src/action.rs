use vstd::prelude::*;
use crate::node::NodeLink;

verus! {

/// Outcome of one level of the recursive removal protocol.
///
/// Every recursive removal step hands one of these back to its caller.
/// `Return` carries the removed value (or `None` when the key was absent)
/// and asks for no structural change.  `UpdateNode` is produced by the node
/// that matched the key: it tells the immediate parent to replace that whole
/// child position with the carried subtree, pull the removed value out of
/// the discarded node, and convert the outcome back into `Return` for the
/// levels above.
pub enum RemoveAction<V> {
    Return(Option<V>),
    UpdateNode(NodeLink<V>),
}

/// Outcome of a recursive insertion.
///
/// `Increment` reports that a fresh node was created, so the containing map
/// must grow its element count; `Unchanged` reports that an existing node
/// was updated in place and the count stays as it is.
pub enum InsertAction {
    Increment,
    Unchanged,
}

} // verus!
