//! An in-memory ordered set of `i32` keys, implemented as a B-tree with
//! fanout `M`. Lookup, insertion (replace on equal), first/last inspection,
//! and removal (by key, by minimum, by maximum) are all verified: the tree
//! is viewed as a `Set<int>`, and every operation's contract states its
//! effect on that view.
use vstd::prelude::*;

pub mod arrayvec;
pub mod laws;
mod node;
mod tree;

pub use node::ascending;
pub use node::is_max_key;
pub use node::is_min_key;
pub use tree::insert_i32;
pub use tree::BTreeInner;
pub use tree::OkBTree;

verus! {

/// The fanout factor: the maximum number of pivots a node may hold.
/// Must be greater than one and even.
pub const M: usize = 2;

/// The constraints on the fanout factor, checked at verification time:
/// `M` is greater than one and even.
pub proof fn lemma_fanout_constraints()
    ensures
        M > 1,
        M % 2 == 0,
{
}

} // verus!
