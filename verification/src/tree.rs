//! The tree layer: a thin wrapper owning an optional `(depth, root)` pair.
//! It originates the recursion into the node engine, grows the tree when the
//! root splits, and shrinks it when the root empties.
use vstd::prelude::*;

use crate::arrayvec::DetachedArrayVec;
use crate::node::all_leaves_at;
use crate::node::ascending;
use crate::node::children_consistent;
use crate::node::is_max_key;
use crate::node::is_min_key;
use crate::node::lemma_inorder_props;
use crate::node::lemma_keys_finite;
use crate::node::lemma_wf_structure;
use crate::node::subnodes_bounded;
use crate::node::lemma_children_keys_unfold;
use crate::node::lemma_height_bound;
use crate::node::lemma_sks_empty;
use crate::node::lemma_sks_singleton;
use crate::node::probe_selects;
use crate::node::Children;
use crate::node::InsertResult;
use crate::node::Node;
use crate::node::Probe;
use crate::node::RemoveResult;

verus! {

/// The root node of a non-empty tree together with the tree's depth: the
/// number of node levels from the root down to the leaves, inclusive.
pub struct BTreeInner {
    depth: usize,
    node: Box<Node>,
}

/// An in-memory ordered set of `i32` keys, kept as a B-tree of fanout [`M`](crate::M):
/// every node holds at most `M` pivots, every node but the root at least
/// `M / 2`, and all leaves sit at the same depth. The view of the tree is
/// the set of stored keys.
pub struct OkBTree(Option<BTreeInner>);

impl View for OkBTree {
    type V = Set<int>;

    closed spec fn view(&self) -> Set<int> {
        match self.0 {
            None => Set::empty(),
            Some(inner) => inner.node.keys((inner.depth - 1) as nat),
        }
    }
}

impl OkBTree {
    /// The structural invariant: a present root is well-formed at height
    /// `depth - 1` with unbounded key range, and only a tree of depth 1 may
    /// carry an empty root (after the last key was removed from a one-leaf
    /// tree).
    pub closed spec fn wf(&self) -> bool {
        match self.0 {
            None => true,
            Some(inner) => {
                &&& inner.depth >= 1
                &&& inner.node.wf((inner.depth - 1) as nat, None, None)
                &&& (inner.node.len == 0 ==> inner.depth == 1)
            },
        }
    }

    /// Create an empty tree.
    pub fn new() -> (r: OkBTree)
        ensures
            r.wf(),
            r@ == Set::<int>::empty(),
    {
        OkBTree(None)
    }

    /// Look up `q`: returns the stored key equal to `q` exactly when one is
    /// present.
    pub fn get(&self, q: &i32) -> (r: Option<&i32>)
        requires
            self.wf(),
        ensures
            r is Some <==> self@.contains(*q as int),
            r is Some ==> *r.unwrap() == *q,
    {
        match &self.0 {
            None => None,
            Some(inner) => inner.node.search(
                inner.depth - 1,
                &Probe::Key(*q),
                Ghost(None),
                Ghost(None),
            ),
        }
    }

    /// The greatest stored key, or `None` when the tree is empty.
    pub fn last(&self) -> (r: Option<&i32>)
        requires
            self.wf(),
        ensures
            r is None ==> forall|k: int| !self@.contains(k),
            r is Some ==> is_max_key(*r.unwrap() as int, self@),
    {
        match &self.0 {
            None => None,
            Some(inner) => inner.node.search(inner.depth - 1, &Probe::Last, Ghost(None), Ghost(None)),
        }
    }

    /// The least stored key, or `None` when the tree is empty.
    pub fn first(&self) -> (r: Option<&i32>)
        requires
            self.wf(),
        ensures
            r is None ==> forall|k: int| !self@.contains(k),
            r is Some ==> is_min_key(*r.unwrap() as int, self@),
    {
        match &self.0 {
            None => None,
            Some(inner) => inner.node.search(
                inner.depth - 1,
                &Probe::First,
                Ghost(None),
                Ghost(None),
            ),
        }
    }

    /// Remove the probed key, shrinking the tree by one level when the root
    /// has been emptied by a merge of its two remaining children.
    fn remove_inner(&mut self, probe: &Probe) -> (r: Option<i32>)
        requires
            old(self).wf(),
        ensures
            final(self).wf(),
            match r {
                None => {
                    &&& final(self)@ == old(self)@
                    &&& match *probe {
                        Probe::Key(k) => !old(self)@.contains(k as int),
                        _ => forall|k: int| !old(self)@.contains(k),
                    }
                },
                Some(v) => {
                    &&& old(self)@.contains(v as int)
                    &&& final(self)@ == old(self)@.remove(v as int)
                    &&& probe_selects(*probe, v as int, old(self)@)
                },
            },
    {
        match self.0.take() {
            None => None,
            Some(mut inner) => {
                let ghost h = (inner.depth - 1) as nat;
                if inner.node.len == 0 {
                    proof {
                        assert forall|k: int| !old(self)@.contains(k) by {
                            if inner.node.keys(h).contains(k) {
                                let j = choose|j: int|
                                    0 <= j < inner.node.pivots@.len() && inner.node.pivots@[j]
                                        as int == k;
                            }
                        }
                    }
                    self.0 = Some(inner);
                    return None;
                }
                let height = inner.depth - 1;
                let r = (&mut *inner.node).remove(height, probe, Ghost(None), Ghost(None));
                match r {
                    None => {
                        self.0 = Some(inner);
                        None
                    },
                    Some(res) => {
                        let v = match &res {
                            RemoveResult::Done(p) => *p,
                            RemoveResult::Underflow(p) => *p,
                        };
                        let under = match &res {
                            RemoveResult::Underflow(_) => true,
                            RemoveResult::Done(_) => false,
                        };
                        if under && inner.node.len == 0 && inner.depth > 1 {
                            // The root has emptied: its single remaining
                            // child becomes the new root.
                            proof {
                                let rt = *inner.node;
                                lemma_sks_empty(rt.pivots@);
                                lemma_children_keys_unfold(rt, h, 1);
                                assert(rt.keys(h) =~= rt.spec_child(0).keys((h - 1) as nat));
                                assert(rt.spec_child(0).wf((h - 1) as nat, None, None)
                                    && rt.spec_child(0).len >= crate::M / 2);
                            }
                            let new_root = (&mut *inner.node).take_child(0);
                            inner.node = new_root;
                            inner.depth = inner.depth - 1;
                        }
                        self.0 = Some(inner);
                        Some(v)
                    },
                }
            },
        }
    }

    /// Remove and return the greatest key; `None` when the tree is empty.
    pub fn remove_last(&mut self) -> (r: Option<i32>)
        requires
            old(self).wf(),
        ensures
            final(self).wf(),
            match r {
                None => final(self)@ == old(self)@ && (forall|k: int| !old(self)@.contains(k)),
                Some(v) => is_max_key(v as int, old(self)@) && final(self)@ == old(self)@.remove(
                    v as int,
                ),
            },
    {
        self.remove_inner(&Probe::Last)
    }

    /// Remove and return the least key; `None` when the tree is empty.
    pub fn remove_first(&mut self) -> (r: Option<i32>)
        requires
            old(self).wf(),
        ensures
            final(self).wf(),
            match r {
                None => final(self)@ == old(self)@ && (forall|k: int| !old(self)@.contains(k)),
                Some(v) => is_min_key(v as int, old(self)@) && final(self)@ == old(self)@.remove(
                    v as int,
                ),
            },
    {
        self.remove_inner(&Probe::First)
    }

    /// Remove the key equal to `q`: returns it exactly when it was present.
    pub fn remove(&mut self, q: &i32) -> (r: Option<i32>)
        requires
            old(self).wf(),
        ensures
            final(self).wf(),
            final(self)@ == old(self)@.remove(*q as int),
            r == if old(self)@.contains(*q as int) {
                Some(*q)
            } else {
                None::<i32>
            },
    {
        let r = self.remove_inner(&Probe::Key(*q));
        proof {
            if r is None {
                assert(old(self)@.remove(*q as int) =~= old(self)@);
            }
        }
        r
    }

    /// Insert `value`, replacing the equal key if one is present. The tree
    /// grows one level exactly when the root splits.
    pub fn insert(&mut self, value: i32)
        requires
            old(self).wf(),
        ensures
            final(self).wf(),
            final(self)@ == old(self)@.insert(value as int),
    {
        match self.0.take() {
            Some(mut inner) => {
                let height = inner.depth - 1;
                let ghost h = height as nat;
                proof {
                    // A well-formed tree over i32 keys is at most 33 deep,
                    // so growing by one level cannot overflow the counter.
                    if inner.node.len >= 1 {
                        lemma_height_bound(*inner.node, h, None, None);
                    }
                    assert(inner.depth <= 33);
                }
                let ghost root0 = *inner.node;
                match (&mut *inner.node).insert(value, height, Ghost(None), Ghost(None)) {
                    InsertResult::Propagate { pivot, right } => {
                        let ghost left = *inner.node;
                        let ghost rightg = *right;
                        let depth = inner.depth + 1;
                        let mut pivots = DetachedArrayVec::new();
                        pivots.push(0, pivot);
                        let mut children = Children::new();
                        children.head = Some(inner.node);
                        children.tail.push(right);
                        let node = Node { len: 1, pivots, children };
                        proof {
                            assert(node.spec_child(0) == left);
                            assert(node.spec_child(1) == rightg);
                            assert(node.pivots@ =~= Seq::<i32>::empty().push(pivot));
                            lemma_sks_singleton(node.pivots@);
                            assert(node.wf(h + 1, None, None));
                            lemma_children_keys_unfold(node, h + 1, 2);
                            lemma_children_keys_unfold(node, h + 1, 1);
                            assert(node.keys(h + 1) =~= root0.keys(h).insert(value as int));
                        }
                        self.0 = Some(BTreeInner { depth, node: Box::new(node) });
                    },
                    InsertResult::Done => {
                        self.0 = Some(inner);
                    },
                }
            },
            None => {
                let mut pivots = DetachedArrayVec::new();
                pivots.push(0, value);
                let node = Node { len: 1, pivots, children: Children::new() };
                proof {
                    assert(node.pivots@ =~= Seq::<i32>::empty().push(value));
                    lemma_sks_singleton(node.pivots@);
                    assert(node.wf(0, None, None));
                    assert(node.keys(0) =~= Set::<int>::empty().insert(value as int));
                }
                self.0 = Some(BTreeInner { depth: 1, node: Box::new(node) });
            },
        }
    }
}

impl OkBTree {
    /// The stored keys in ascending order: the tree's in-order traversal.
    pub closed spec fn inorder(&self) -> Seq<int> {
        match self.0 {
            None => Seq::empty(),
            Some(inner) => inner.node.inorder((inner.depth - 1) as nat),
        }
    }

    /// Every leaf lies exactly `depth - 1` levels below the root.
    pub closed spec fn balanced(&self) -> bool {
        match self.0 {
            None => true,
            Some(inner) => all_leaves_at(*inner.node, (inner.depth - 1) as nat),
        }
    }

    /// Every node below the root holds between `M / 2` and `M` pivots; the
    /// root holds at most `M`, and at least one unless the tree is empty.
    pub closed spec fn fanout_bounded(&self) -> bool {
        match self.0 {
            None => true,
            Some(inner) => {
                &&& subnodes_bounded(*inner.node, (inner.depth - 1) as nat)
                &&& inner.node.len <= crate::M
                &&& (inner.node.keys((inner.depth - 1) as nat) == Set::<int>::empty()
                    || inner.node.len >= 1)
            },
        }
    }

    /// Every internal node with `len` pivots has exactly `len + 1` children.
    pub closed spec fn child_counts_consistent(&self) -> bool {
        match self.0 {
            None => true,
            Some(inner) => children_consistent(*inner.node, (inner.depth - 1) as nat),
        }
    }

    /// LAW (ordered): the in-order traversal of a well-formed tree is a
    /// strictly ascending sequence, and it enumerates exactly the view.
    pub proof fn lemma_ordered(&self)
        requires
            self.wf(),
        ensures
            ascending(self.inorder()),
            self.inorder().to_set() == self@,
    {
        match self.0 {
            None => {
                assert(self.inorder().to_set() =~= self@) by {
                    if exists|k: int| self.inorder().to_set().contains(k) {
                        let k = choose|k: int| self.inorder().to_set().contains(k);
                        let t = choose|t: int|
                            0 <= t < self.inorder().len() && self.inorder()[t] == k;
                    }
                }
            },
            Some(inner) => {
                lemma_inorder_props(*inner.node, (inner.depth - 1) as nat, None, None);
            },
        }
    }

    /// LAW (balanced): in a well-formed tree every leaf has the same depth.
    pub proof fn lemma_balanced(&self)
        requires
            self.wf(),
        ensures
            self.balanced(),
    {
        if let Some(inner) = self.0 {
            lemma_wf_structure(*inner.node, (inner.depth - 1) as nat, None, None);
        }
    }

    /// LAW (bounded fanout): in a well-formed tree every non-root node has
    /// pivot count in `[M / 2, M]`, and the root has pivot count in
    /// `[1, M]` when the tree is non-empty.
    pub proof fn lemma_fanout_bounded(&self)
        requires
            self.wf(),
        ensures
            self.fanout_bounded(),
    {
        if let Some(inner) = self.0 {
            let h = (inner.depth - 1) as nat;
            lemma_wf_structure(*inner.node, h, None, None);
            if inner.node.len == 0 {
                assert(inner.node.keys(h) =~= Set::<int>::empty()) by {
                    if exists|k: int| inner.node.keys(h).contains(k) {
                        let k = choose|k: int| inner.node.keys(h).contains(k);
                        let j = choose|j: int|
                            0 <= j < inner.node.pivots@.len() && inner.node.pivots@[j] as int == k;
                    }
                }
            }
        }
    }

    /// LAW (child-pivot consistency): in a well-formed tree every internal
    /// node with `len` pivots has exactly `len + 1` children.
    pub proof fn lemma_child_counts(&self)
        requires
            self.wf(),
        ensures
            self.child_counts_consistent(),
    {
        if let Some(inner) = self.0 {
            lemma_wf_structure(*inner.node, (inner.depth - 1) as nat, None, None);
        }
    }

    /// The view of a well-formed tree is a finite set of keys.
    pub proof fn lemma_view_finite(&self)
        requires
            self.wf(),
        ensures
            self@.finite(),
    {
        if let Some(inner) = self.0 {
            lemma_keys_finite(*inner.node, (inner.depth - 1) as nat, None, None);
        }
    }
}

impl Default for OkBTree {
    /// An empty tree.
    fn default() -> (r: Self)
        ensures
            r.wf(),
            r@ == Set::<int>::empty(),
    {
        OkBTree::new()
    }
}

/// Insert the key `1` into the tree.
pub fn insert_i32(x: &mut OkBTree)
    requires
        old(x).wf(),
    ensures
        final(x).wf(),
        final(x)@ == old(x)@.insert(1int),
{
    x.insert(1);
}

} // verus!
