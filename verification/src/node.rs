//! The B-tree node engine: node layout, search, insertion with overflow
//! propagation, and removal with underflow recovery.
//!
//! A node at height `h` holds `len` pivots (sorted strictly ascending) and,
//! when `h > 0`, `len + 1` children laid out as `(head, tail[0..len])`. The
//! well-formedness predicate [`Node::wf`] carries the open interval
//! `(lo, hi)` that every key of the subtree must lie in; the key set of a
//! subtree is [`Node::keys`].
use vstd::prelude::*;

use crate::arrayvec::DetachedArrayVec;
use crate::M;
use core::cmp::Ordering;

verus! {

/// Everything `lo < k < hi`, where `None` means unbounded on that side.
pub open spec fn in_bounds(lo: Option<int>, k: int, hi: Option<int>) -> bool {
    &&& match lo {
        Some(l) => l < k,
        None => true,
    }
    &&& match hi {
        Some(h) => k < h,
        None => true,
    }
}

/// The set of keys stored in a sequence of pivots.
pub open spec fn seq_key_set(s: Seq<i32>) -> Set<int> {
    Set::new(|k: int| exists|i: int| 0 <= i < s.len() && s[i] as int == k)
}

/// Strictly ascending order.
pub open spec fn strictly_sorted(s: Seq<i32>) -> bool {
    forall|i: int, j: int| 0 <= i < j < s.len() ==> s[i] < s[j]
}

/// `v` is the least element of `s`.
pub open spec fn is_min_key(v: int, s: Set<int>) -> bool {
    &&& s.contains(v)
    &&& forall|k: int| s.contains(k) ==> v <= k
}

/// `v` is the greatest element of `s`.
pub open spec fn is_max_key(v: int, s: Set<int>) -> bool {
    &&& s.contains(v)
    &&& forall|k: int| s.contains(k) ==> k <= v
}

/// The children of an internal node: one owned child in `head` and `len`
/// more in `tail[0..len]`, so that child `i + 1` of the node is `tail[i]`.
/// For a leaf both parts are empty. The tail is an ordinary vector rather
/// than a slot array, so that the node type may own values of its own type.
pub(crate) struct Children {
    pub head: Option<Box<Node>>,
    pub tail: Vec<Box<Node>>,
}

/// A B-tree node of fanout `M`.
pub(crate) struct Node {
    pub len: usize,
    pub pivots: DetachedArrayVec<i32, M>,
    pub children: Children,
}

/// What a node-level insertion hands back to its parent: either the value
/// was absorbed, or the node split and the parent must adopt the median
/// pivot and the new right sibling.
pub(crate) enum InsertResult {
    Propagate { pivot: i32, right: Box<Node> },
    Done,
}

/// What a node-level removal hands back to its parent: the removed value,
/// marked `Underflow` when the node's pivot count has dropped below `M / 2`.
pub(crate) enum RemoveResult {
    Underflow(i32),
    Done(i32),
}

/// How a lookup or removal picks its position: compare against a key, or
/// take the leftmost or rightmost position.
pub(crate) enum Probe {
    Key(i32),
    First,
    Last,
}

/// Relies on `equivalent::Comparable::compare` for `i32` (the crate's
/// blanket implementation over `Ord`): the result is the ordering of `*q`
/// relative to `*t`.
#[verifier::external_body]
fn compare_key(q: &i32, t: &i32) -> (r: Ordering)
    ensures
        (r == Ordering::Less <==> *q < *t),
        (r == Ordering::Equal <==> *q == *t),
        (r == Ordering::Greater <==> *q > *t),
{
    equivalent::Comparable::compare(q, t)
}

impl Probe {
    /// Search the pivot prefix for the probe's position: `Ok(i)` for an
    /// exact match at `i`, `Err(i)` for the branch (or insertion) index `i`.
    /// The leftmost and rightmost probes match only at a non-empty leaf.
    fn binary_search(&self, pivots: &DetachedArrayVec<i32, M>, len: usize, height: usize) -> (r:
        Result<usize, usize>)
        requires
            len == pivots@.len(),
            strictly_sorted(pivots@),
        ensures
            match *self {
                Probe::Key(k) => match r {
                    Ok(i) => i < len && pivots@[i as int] == k,
                    Err(i) => {
                        &&& i <= len
                        &&& forall|j: int| 0 <= j < i ==> pivots@[j] < k
                        &&& forall|j: int| i <= j < len ==> pivots@[j] > k
                    },
                },
                Probe::First => r == if height == 0 && len > 0 {
                    Result::<usize, usize>::Ok(0usize)
                } else {
                    Result::<usize, usize>::Err(0usize)
                },
                Probe::Last => r == if height == 0 && len > 0 {
                    Result::<usize, usize>::Ok((len - 1) as usize)
                } else {
                    Result::<usize, usize>::Err(len)
                },
            },
    {
        match self {
            Probe::Key(k) => {
                let mut low: usize = 0;
                let mut high: usize = len;
                while low < high
                    invariant
                        low <= high <= len,
                        len == pivots@.len(),
                        strictly_sorted(pivots@),
                        *self == Probe::Key(*k),
                        forall|j: int| 0 <= j < low ==> pivots@[j] < *k,
                        forall|j: int| high <= j < len ==> pivots@[j] > *k,
                    decreases high - low,
                {
                    let mid = low + (high - low) / 2;
                    match compare_key(k, pivots.get(len, mid)) {
                        Ordering::Less => {
                            high = mid;
                        },
                        Ordering::Greater => {
                            low = mid + 1;
                        },
                        Ordering::Equal => {
                            return Ok(mid);
                        },
                    }
                }
                Err(low)
            },
            Probe::First => {
                if height == 0 && len > 0 {
                    Ok(0)
                } else {
                    Err(0)
                }
            },
            Probe::Last => {
                if height == 0 && len > 0 {
                    Ok(len - 1)
                } else {
                    Err(len)
                }
            },
        }
    }
}

impl Children {
    /// An empty child array, as a leaf node has.
    pub(crate) fn new() -> (r: Children)
        ensures
            r.head is None,
            r.tail@ == Seq::<Box<Node>>::empty(),
    {
        Children { head: None, tail: Vec::new() }
    }
}

impl Node {
    /// Child number `i`, where child `0` is `head` and child `i >= 1` is
    /// `tail[i - 1]`.
    pub(crate) open spec fn spec_child(self, i: int) -> Node {
        if i == 0 {
            *self.children.head.unwrap()
        } else {
            *self.children.tail@[i - 1]
        }
    }

    /// The lower bound of child `i`: the parent's own lower bound for the
    /// leftmost child, else the pivot to the child's left.
    pub(crate) open spec fn child_lo(self, i: int, lo: Option<int>) -> Option<int> {
        if i == 0 {
            lo
        } else {
            Some(self.pivots@[i - 1] as int)
        }
    }

    /// The upper bound of child `i`: the parent's own upper bound for the
    /// rightmost child, else the pivot to the child's right.
    pub(crate) open spec fn child_hi(self, i: int, hi: Option<int>) -> Option<int> {
        if i == self.len {
            hi
        } else {
            Some(self.pivots@[i] as int)
        }
    }

    /// Well-formedness of the subtree rooted here, at height `height`, with
    /// every key strictly inside `(lo, hi)`:
    /// the pivots are strictly ascending and in bounds; a leaf has no
    /// children; an internal node has exactly `len + 1` children, each
    /// well-formed between the adjacent pivots and holding at least `M / 2`
    /// pivots. No bound is placed on this node's own `len` beyond `M`:
    /// the caller states the minimum it needs.
    pub(crate) open spec fn wf(self, height: nat, lo: Option<int>, hi: Option<int>) -> bool
        decreases height,
    {
        &&& self.pivots@.len() == self.len
        &&& self.len <= M
        &&& (forall|i: int| 0 <= i < self.len ==> in_bounds(lo, #[trigger] self.pivots@[i] as int, hi))
        &&& strictly_sorted(self.pivots@)
        &&& if height == 0 {
            self.children.head is None && self.children.tail@.len() == 0
        } else {
            &&& self.children.head is Some
            &&& self.children.tail@.len() == self.len
            &&& (forall|i: int|
                0 <= i <= self.len ==> (#[trigger] self.spec_child(i)).wf(
                    (height - 1) as nat,
                    self.child_lo(i, lo),
                    self.child_hi(i, hi),
                ) && self.spec_child(i).len >= M / 2)
        }
    }

    /// The set of keys stored in the subtree rooted here.
    pub(crate) open spec fn keys(self, height: nat) -> Set<int>
        decreases height, 1int, 0int,
    {
        if height == 0 {
            seq_key_set(self.pivots@)
        } else {
            seq_key_set(self.pivots@).union(self.children_keys(height, self.len + 1))
        }
    }

    /// The keys of the first `count` children, for an internal node.
    pub(crate) open spec fn children_keys(self, height: nat, count: int) -> Set<int>
        decreases height, 0int, count,
    {
        if height == 0 || count <= 0 {
            Set::empty()
        } else {
            self.children_keys(height, count - 1).union(
                self.spec_child(count - 1).keys((height - 1) as nat),
            )
        }
    }
}

/// A key of any of the first `count` children is a key of `children_keys`,
/// and conversely every key of `children_keys` comes from some child.
proof fn lemma_children_keys_member(n: Node, height: nat, count: int)
    requires
        height > 0,
    ensures
        forall|k: int|
            n.children_keys(height, count).contains(k) <==> exists|j: int|
                0 <= j < count && (#[trigger] n.spec_child(j)).keys((height - 1) as nat).contains(
                    k,
                ),
    decreases count,
{
    if count > 0 {
        let ch = (height - 1) as nat;
        lemma_children_keys_member(n, height, count - 1);
        assert forall|k: int| n.children_keys(height, count).contains(k) implies exists|j: int|
            0 <= j < count && (#[trigger] n.spec_child(j)).keys(ch).contains(k) by {
            if n.children_keys(height, count - 1).contains(k) {
                let j = choose|j: int|
                    0 <= j < count - 1 && (#[trigger] n.spec_child(j)).keys(ch).contains(k);
                assert(0 <= j < count && n.spec_child(j).keys(ch).contains(k));
            } else {
                assert(n.spec_child(count - 1).keys(ch).contains(k));
            }
        }
        assert forall|k: int|
            (exists|j: int| 0 <= j < count && (#[trigger] n.spec_child(j)).keys(ch).contains(k))
            implies n.children_keys(height, count).contains(k) by {
            let j = choose|j: int|
                0 <= j < count && (#[trigger] n.spec_child(j)).keys(ch).contains(k);
            if j == count - 1 {
                assert(n.children_keys(height, count).contains(k));
            } else {
                assert(0 <= j < count - 1 && n.spec_child(j).keys(ch).contains(k));
                assert(n.children_keys(height, count - 1).contains(k));
            }
        }
    }
}

/// Every key of a well-formed subtree lies strictly inside its bounds.
proof fn lemma_keys_in_bounds(n: Node, height: nat, lo: Option<int>, hi: Option<int>)
    requires
        n.wf(height, lo, hi),
    ensures
        forall|k: int| n.keys(height).contains(k) ==> in_bounds(lo, k, hi),
    decreases height,
{
    if height > 0 {
        lemma_children_keys_member(n, height, n.len + 1);
        assert forall|k: int| n.keys(height).contains(k) implies in_bounds(lo, k, hi) by {
            if seq_key_set(n.pivots@).contains(k) {
            } else {
                assert(n.children_keys(height, n.len + 1).contains(k));
                let j = choose|j: int|
                    0 <= j < n.len + 1 && (#[trigger] n.spec_child(j)).keys(
                        (height - 1) as nat,
                    ).contains(k);
                assert(n.spec_child(j).wf((height - 1) as nat, n.child_lo(j, lo), n.child_hi(j, hi)));
                lemma_keys_in_bounds(
                    n.spec_child(j),
                    (height - 1) as nat,
                    n.child_lo(j, lo),
                    n.child_hi(j, hi),
                );
                assert(in_bounds(n.child_lo(j, lo), k, n.child_hi(j, hi)));
                if j > 0 {
                    assert(in_bounds(lo, n.pivots@[j - 1] as int, hi));
                }
                if j < n.len {
                    assert(in_bounds(lo, n.pivots@[j] as int, hi));
                }
            }
        }
    }
}

impl Node {
    /// When a key is outside every pivot's position `i`'s left side and
    /// right side as binary search reports, it can only live in child `i`.
    proof fn lemma_key_only_in_child(self, height: nat, lo: Option<int>, hi: Option<int>, i: int, k: int)
        requires
            self.wf(height, lo, hi),
            height > 0,
            0 <= i <= self.len,
            forall|j: int| 0 <= j < i ==> self.pivots@[j] < k,
            forall|j: int| i <= j < self.len ==> self.pivots@[j] > k,
        ensures
            self.keys(height).contains(k) <==> self.spec_child(i).keys((height - 1) as nat).contains(k),
    {
        let ch = (height - 1) as nat;
        lemma_children_keys_member(self, height, self.len + 1);
        if self.spec_child(i).keys(ch).contains(k) {
            assert(self.children_keys(height, self.len + 1).contains(k));
            assert(self.keys(height).contains(k));
        }
        if self.keys(height).contains(k) {
            if seq_key_set(self.pivots@).contains(k) {
                let j = choose|j: int| 0 <= j < self.pivots@.len() && self.pivots@[j] as int == k;
                assert(false);
            } else {
                assert(self.children_keys(height, self.len + 1).contains(k));
                let j = choose|j: int|
                    0 <= j < self.len + 1 && (#[trigger] self.spec_child(j)).keys(ch).contains(k);
                if j != i {
                    assert(self.spec_child(j).wf(ch, self.child_lo(j, lo), self.child_hi(j, hi)));
                    lemma_keys_in_bounds(
                        self.spec_child(j),
                        ch,
                        self.child_lo(j, lo),
                        self.child_hi(j, hi),
                    );
                    assert(in_bounds(self.child_lo(j, lo), k, self.child_hi(j, hi)));
                    if j < i {
                        // k lies below the pivot to the right of child j, which
                        // binary search placed below k: impossible.
                        assert(k < self.pivots@[j] as int);
                        assert(self.pivots@[j] < k);
                        assert(false);
                    } else {
                        assert((self.pivots@[j - 1] as int) < k);
                        assert(self.pivots@[j - 1] > k);
                        assert(false);
                    }
                }
                assert(self.spec_child(i).keys(ch).contains(k));
            }
        }
    }

    /// A pivot of a node is a key of the subtree.
    proof fn lemma_pivot_in_keys(self, height: nat, i: int)
        requires
            0 <= i < self.pivots@.len(),
        ensures
            self.keys(height).contains(self.pivots@[i] as int),
    {
        assert(seq_key_set(self.pivots@).contains(self.pivots@[i] as int));
    }

    /// The keys of child `i` are keys of the subtree.
    proof fn lemma_child_keys_in_keys(self, height: nat, i: int)
        requires
            height > 0,
            0 <= i <= self.len,
        ensures
            forall|k: int|
                self.spec_child(i).keys((height - 1) as nat).contains(k)
                    ==> self.keys(height).contains(k),
    {
        let ch = (height - 1) as nat;
        lemma_children_keys_member(self, height, self.len + 1);
        assert forall|k: int| self.spec_child(i).keys(ch).contains(k) implies self.keys(
            height,
        ).contains(k) by {
            assert(exists|j: int|
                0 <= j < self.len + 1 && (#[trigger] self.spec_child(j)).keys(ch).contains(k));
            assert(self.children_keys(height, self.len + 1).contains(k));
        }
    }
}

impl Children {
    /// Borrow child number `index` (see [`Node::spec_child`]).
    fn get(&self, len: usize, index: usize, Ghost(node): Ghost<Node>) -> (r: &Node)
        requires
            node.children == *self,
            index == 0 ==> self.head is Some,
            index >= 1 ==> index - 1 < self.tail@.len(),
            len == self.tail@.len(),
        ensures
            *r == node.spec_child(index as int),
    {
        if index == 0 {
            self.head.as_ref().unwrap()
        } else {
            &self.tail[index - 1]
        }
    }
}

impl Node {
    /// Search the subtree for the probe's position and return the matching
    /// pivot: an exact key match, or the least/greatest key for the
    /// leftmost/rightmost probes. Returns `None` exactly when no key
    /// matches (for the end probes: when the subtree is empty).
    pub(crate) fn search(
        &self,
        height: usize,
        probe: &Probe,
        Ghost(lo): Ghost<Option<int>>,
        Ghost(hi): Ghost<Option<int>>,
    ) -> (r: Option<&i32>)
        requires
            self.wf(height as nat, lo, hi),
        ensures
            match *probe {
                Probe::Key(k) => {
                    &&& (r is Some <==> self.keys(height as nat).contains(k as int))
                    &&& (r is Some ==> *r.unwrap() == k)
                },
                Probe::First => {
                    &&& (r is None ==> forall|k: int| !self.keys(height as nat).contains(k))
                    &&& (r is Some ==> is_min_key(*r.unwrap() as int, self.keys(height as nat)))
                },
                Probe::Last => {
                    &&& (r is None ==> forall|k: int| !self.keys(height as nat).contains(k))
                    &&& (r is Some ==> is_max_key(*r.unwrap() as int, self.keys(height as nat)))
                },
            },
        decreases height,
    {
        let len = self.len;
        let index = match probe.binary_search(&self.pivots, len, height) {
            Ok(index) => {
                let v = self.pivots.get(len, index);
                proof {
                    self.lemma_pivot_in_keys(height as nat, index as int);
                    if height > 0 {
                        lemma_children_keys_member(*self, height as nat, self.len + 1);
                    }
                    match *probe {
                        Probe::Key(_) => {},
                        Probe::First => {
                            assert forall|k: int| self.keys(height as nat).contains(k) implies *v
                                <= k by {};
                        },
                        Probe::Last => {
                            assert forall|k: int| self.keys(height as nat).contains(k) implies k
                                <= *v by {};
                        },
                    }
                }
                return Some(v);
            },
            Err(index) => index,
        };

        if height == 0 {
            proof {
                match *probe {
                    Probe::Key(k) => {
                        if self.keys(0).contains(k as int) {
                            let j = choose|j: int|
                                0 <= j < self.pivots@.len() && self.pivots@[j] as int == k as int;
                            assert(false);
                        }
                    },
                    _ => {
                        assert(self.len == 0);
                        assert forall|k: int| !self.keys(0).contains(k) by {
                            if self.keys(0).contains(k) {
                                let j = choose|j: int|
                                    0 <= j < self.pivots@.len() && self.pivots@[j] as int == k;
                            }
                        }
                    },
                }
            }
            return None;
        }

        let child = self.children.get(len, index, Ghost(*self));
        let r = child.search(
            height - 1,
            probe,
            Ghost(self.child_lo(index as int, lo)),
            Ghost(self.child_hi(index as int, hi)),
        );
        proof {
            let h = height as nat;
            let ch = (height - 1) as nat;
            let child_keys = self.spec_child(index as int).keys(ch);
            self.lemma_child_keys_in_keys(h, index as int);
            lemma_children_keys_member(*self, h, self.len + 1);
            match *probe {
                Probe::Key(k) => {
                    self.lemma_key_only_in_child(h, lo, hi, index as int, k as int);
                },
                Probe::First => {
                    // The leftmost probe always descends into child 0, whose
                    // keys are below every pivot and every other child.
                    assert(index == 0);
                    assert(self.spec_child(0).wf(ch, self.child_lo(0, lo), self.child_hi(0, hi))
                        && self.spec_child(0).len >= M / 2);
                    assert(self.spec_child(0).pivots@.len() >= 1);
                    self.spec_child(0).lemma_pivot_in_keys(ch, 0);
                    assert(r is Some);
                    let v = *r.unwrap() as int;
                    lemma_keys_in_bounds(self.spec_child(0), ch, self.child_lo(0, lo), self.child_hi(0, hi));
                    assert forall|k: int| self.keys(h).contains(k) implies v <= k by {
                        if child_keys.contains(k) {
                        } else if seq_key_set(self.pivots@).contains(k) {
                            let j = choose|j: int|
                                0 <= j < self.pivots@.len() && self.pivots@[j] as int == k;
                            assert(self.pivots@[0] <= self.pivots@[j]);
                            assert(v < self.pivots@[0] as int);
                        } else {
                            assert(self.children_keys(h, self.len + 1).contains(k));
                            let j = choose|j: int|
                                0 <= j < self.len + 1 && (#[trigger] self.spec_child(j)).keys(
                                    ch,
                                ).contains(k);
                            assert(self.spec_child(j).wf(
                                ch,
                                self.child_lo(j, lo),
                                self.child_hi(j, hi),
                            ));
                            lemma_keys_in_bounds(
                                self.spec_child(j),
                                ch,
                                self.child_lo(j, lo),
                                self.child_hi(j, hi),
                            );
                            assert(in_bounds(self.child_lo(j, lo), k, self.child_hi(j, hi)));
                            assert(j > 0);
                            assert((self.pivots@[j - 1] as int) < k);
                            assert(self.pivots@[0] <= self.pivots@[j - 1]);
                        }
                    }
                },
                Probe::Last => {
                    assert(index == self.len);
                    assert(self.spec_child(index as int).wf(
                        ch,
                        self.child_lo(index as int, lo),
                        self.child_hi(index as int, hi),
                    ) && self.spec_child(index as int).len >= M / 2);
                    assert(self.spec_child(index as int).pivots@.len() >= 1);
                    self.spec_child(index as int).lemma_pivot_in_keys(ch, 0);
                    assert(r is Some);
                    let v = *r.unwrap() as int;
                    lemma_keys_in_bounds(
                        self.spec_child(index as int),
                        ch,
                        self.child_lo(index as int, lo),
                        self.child_hi(index as int, hi),
                    );
                    assert forall|k: int| self.keys(h).contains(k) implies k <= v by {
                        if child_keys.contains(k) {
                        } else if seq_key_set(self.pivots@).contains(k) {
                            let j = choose|j: int|
                                0 <= j < self.pivots@.len() && self.pivots@[j] as int == k;
                            assert(self.pivots@[j] <= self.pivots@[self.len - 1]);
                            assert(v > self.pivots@[self.len - 1] as int);
                        } else {
                            assert(self.children_keys(h, self.len + 1).contains(k));
                            let j = choose|j: int|
                                0 <= j < self.len + 1 && (#[trigger] self.spec_child(j)).keys(
                                    ch,
                                ).contains(k);
                            assert(self.spec_child(j).wf(
                                ch,
                                self.child_lo(j, lo),
                                self.child_hi(j, hi),
                            ));
                            lemma_keys_in_bounds(
                                self.spec_child(j),
                                ch,
                                self.child_lo(j, lo),
                                self.child_hi(j, hi),
                            );
                            assert(in_bounds(self.child_lo(j, lo), k, self.child_hi(j, hi)));
                            if j < self.len {
                                assert(k < self.pivots@[j] as int);
                                assert(self.pivots@[j] <= self.pivots@[self.len - 1]);
                            }
                        }
                    }
                },
            }
        }
        r
    }
}


/// The key set of the empty pivot sequence is empty.
pub(crate) proof fn lemma_sks_empty(s: Seq<i32>)
    requires
        s.len() == 0,
    ensures
        seq_key_set(s) =~= Set::<int>::empty(),
{
}

/// Inserting a pivot inserts its key.
proof fn lemma_sks_insert(s: Seq<i32>, i: int, v: i32)
    requires
        0 <= i <= s.len(),
    ensures
        seq_key_set(s.insert(i, v)) =~= seq_key_set(s).insert(v as int),
{
    let t = s.insert(i, v);
    assert forall|k: int| seq_key_set(t).contains(k) implies seq_key_set(s).insert(
        v as int,
    ).contains(k) by {
        let j = choose|j: int| 0 <= j < t.len() && t[j] as int == k;
        if j < i {
            assert(s[j] as int == k);
        } else if j > i {
            assert(s[j - 1] as int == k);
        }
    }
    assert forall|k: int| seq_key_set(s).insert(v as int).contains(k) implies seq_key_set(
        t,
    ).contains(k) by {
        if k == v as int {
            assert(t[i] as int == k);
        } else {
            let j = choose|j: int| 0 <= j < s.len() && s[j] as int == k;
            if j < i {
                assert(t[j] as int == k);
            } else {
                assert(t[j + 1] as int == k);
            }
        }
    }
}

/// Removing a pivot of a strictly sorted sequence removes its key.
proof fn lemma_sks_remove(s: Seq<i32>, i: int)
    requires
        0 <= i < s.len(),
        strictly_sorted(s),
    ensures
        seq_key_set(s.remove(i)) =~= seq_key_set(s).remove(s[i] as int),
{
    let t = s.remove(i);
    assert forall|k: int| seq_key_set(t).contains(k) implies seq_key_set(s).remove(
        s[i] as int,
    ).contains(k) by {
        let j = choose|j: int| 0 <= j < t.len() && t[j] as int == k;
        if j < i {
            assert(s[j] as int == k);
            assert(s[j] != s[i]);
        } else {
            assert(s[j + 1] as int == k);
            assert(s[j + 1] != s[i]);
        }
    }
    assert forall|k: int| seq_key_set(s).remove(s[i] as int).contains(k) implies seq_key_set(
        t,
    ).contains(k) by {
        let j = choose|j: int| 0 <= j < s.len() && s[j] as int == k;
        if j < i {
            assert(t[j] as int == k);
        } else {
            assert(j != i);
            assert(t[j - 1] as int == k);
        }
    }
}

/// Overwriting a pivot of a strictly sorted sequence swaps its key for the
/// new one.
proof fn lemma_sks_update(s: Seq<i32>, i: int, v: i32)
    requires
        0 <= i < s.len(),
        strictly_sorted(s),
    ensures
        seq_key_set(s.update(i, v)) =~= seq_key_set(s).remove(s[i] as int).insert(v as int),
{
    let t = s.update(i, v);
    assert forall|k: int| seq_key_set(t).contains(k) implies seq_key_set(s).remove(
        s[i] as int,
    ).insert(v as int).contains(k) by {
        let j = choose|j: int| 0 <= j < t.len() && t[j] as int == k;
        if j != i {
            assert(s[j] as int == k);
            assert(s[j] != s[i]);
        }
    }
    assert forall|k: int| seq_key_set(s).remove(s[i] as int).insert(v as int).contains(k)
        implies seq_key_set(t).contains(k) by {
        if k == v as int {
            assert(t[i] as int == k);
        } else {
            let j = choose|j: int| 0 <= j < s.len() && s[j] as int == k;
            assert(j != i);
            assert(t[j] as int == k);
        }
    }
}

/// A pivot sequence's key set splits at any point.
proof fn lemma_sks_split(s: Seq<i32>, at: int)
    requires
        0 <= at <= s.len(),
    ensures
        seq_key_set(s) =~= seq_key_set(s.subrange(0, at)).union(
            seq_key_set(s.subrange(at, s.len() as int)),
        ),
{
    let a = s.subrange(0, at);
    let b = s.subrange(at, s.len() as int);
    assert forall|k: int| seq_key_set(s).contains(k) implies seq_key_set(a).union(
        seq_key_set(b),
    ).contains(k) by {
        let j = choose|j: int| 0 <= j < s.len() && s[j] as int == k;
        if j < at {
            assert(a[j] as int == k);
        } else {
            assert(b[j - at] as int == k);
        }
    }
    assert forall|k: int| seq_key_set(a).union(seq_key_set(b)).contains(k) implies seq_key_set(
        s,
    ).contains(k) by {
        if seq_key_set(a).contains(k) {
            let j = choose|j: int| 0 <= j < a.len() && a[j] as int == k;
            assert(s[j] as int == k);
        } else {
            let j = choose|j: int| 0 <= j < b.len() && b[j] as int == k;
            assert(s[j + at] as int == k);
        }
    }
}

/// A single pivot stores a single key.
pub(crate) proof fn lemma_sks_singleton(s: Seq<i32>)
    requires
        s.len() == 1,
    ensures
        seq_key_set(s) =~= Set::<int>::empty().insert(s[0] as int),
{
    assert(s =~= Seq::<i32>::empty().insert(0, s[0]));
    lemma_sks_insert(Seq::<i32>::empty(), 0, s[0]);
    lemma_sks_empty(Seq::<i32>::empty());
}

/// Two nodes with the same length, the same pivot keys and the same children
/// store the same key set; if the pivot sequences are equal they are equally
/// well-formed too.
proof fn lemma_node_congruent(a: Node, b: Node, height: nat)
    requires
        a.len == b.len,
        a.pivots@ == b.pivots@,
        a.children == b.children,
    ensures
        a.keys(height) == b.keys(height),
        forall|lo: Option<int>, hi: Option<int>| a.wf(height, lo, hi) <==> b.wf(height, lo, hi),
    decreases height, 1int, 0int,
{
    if height > 0 {
        lemma_children_keys_congruent(a, b, height, a.len + 1);
        assert forall|lo: Option<int>, hi: Option<int>| a.wf(height, lo, hi) implies b.wf(
            height,
            lo,
            hi,
        ) by {
            assert forall|i: int| 0 <= i <= b.len implies (#[trigger] b.spec_child(i)).wf(
                (height - 1) as nat,
                b.child_lo(i, lo),
                b.child_hi(i, hi),
            ) && b.spec_child(i).len >= M / 2 by {
                assert(a.spec_child(i) == b.spec_child(i));
                assert(a.spec_child(i).wf(
                    (height - 1) as nat,
                    a.child_lo(i, lo),
                    a.child_hi(i, hi),
                ));
            }
        }
        assert forall|lo: Option<int>, hi: Option<int>| b.wf(height, lo, hi) implies a.wf(
            height,
            lo,
            hi,
        ) by {
            assert forall|i: int| 0 <= i <= a.len implies (#[trigger] a.spec_child(i)).wf(
                (height - 1) as nat,
                a.child_lo(i, lo),
                a.child_hi(i, hi),
            ) && a.spec_child(i).len >= M / 2 by {
                assert(b.spec_child(i) == a.spec_child(i));
                assert(b.spec_child(i).wf(
                    (height - 1) as nat,
                    b.child_lo(i, lo),
                    b.child_hi(i, hi),
                ));
            }
        }
    }
}

/// Helper for [`lemma_node_congruent`]: the children's keys agree.
proof fn lemma_children_keys_congruent(a: Node, b: Node, height: nat, count: int)
    requires
        a.children == b.children,
        height > 0,
    ensures
        a.children_keys(height, count) == b.children_keys(height, count),
    decreases height, 0int, count,
{
    if count > 0 {
        lemma_children_keys_congruent(a, b, height, count - 1);
        assert(a.spec_child(count - 1) == b.spec_child(count - 1));
    }
}

impl Node {
    /// Take child number `index` out of the node, leaving a hole there:
    /// `head` empties for `index == 0`, the tail closes up otherwise.
    pub(crate) fn take_child(&mut self, index: usize) -> (r: Box<Node>)
        requires
            index == 0 ==> old(self).children.head is Some,
            index >= 1 ==> index - 1 < old(self).children.tail@.len(),
        ensures
            *r == old(self).spec_child(index as int),
            final(self).pivots == old(self).pivots,
            final(self).len == old(self).len,
            index == 0 ==> final(self).children.head is None && final(self).children.tail == old(
                self,
            ).children.tail,
            index >= 1 ==> final(self).children.head == old(self).children.head
                && final(self).children.tail@ == old(self).children.tail@.remove(index - 1),
    {
        if index == 0 {
            self.children.head.take().unwrap()
        } else {
            self.children.tail.remove(index - 1)
        }
    }

    /// Put a child back at number `index`, undoing [`Node::take_child`].
    fn put_child(&mut self, index: usize, c: Box<Node>)
        requires
            index == 0 ==> old(self).children.head is None,
            index >= 1 ==> index - 1 <= old(self).children.tail@.len(),
        ensures
            final(self).pivots == old(self).pivots,
            final(self).len == old(self).len,
            index == 0 ==> final(self).children.head == Some(c) && final(self).children.tail
                == old(self).children.tail,
            index >= 1 ==> final(self).children.head == old(self).children.head
                && final(self).children.tail@ == old(self).children.tail@.insert(index - 1, c),
    {
        if index == 0 {
            self.children.head = Some(c);
        } else {
            self.children.tail.insert(index - 1, c);
        }
    }
}


/// If two nodes have the same children below `count`, their key unions agree.
proof fn lemma_children_keys_pointwise(a: Node, b: Node, height: nat, count: int)
    requires
        height > 0,
        forall|j: int| 0 <= j < count ==> a.spec_child(j) == b.spec_child(j),
    ensures
        a.children_keys(height, count) == b.children_keys(height, count),
    decreases count,
{
    if count > 0 {
        lemma_children_keys_pointwise(a, b, height, count - 1);
        assert(a.spec_child(count - 1) == b.spec_child(count - 1));
    }
}

/// If node `b` is node `a` with the keys of child `i` grown by `v`, the
/// children's key union grows by `v` too.
proof fn lemma_children_keys_one_updated(a: Node, b: Node, height: nat, i: int, count: int, v: int)
    requires
        height > 0,
        0 <= i < count,
        forall|j: int| 0 <= j < count && j != i ==> a.spec_child(j) == b.spec_child(j),
        b.spec_child(i).keys((height - 1) as nat) == a.spec_child(i).keys(
            (height - 1) as nat,
        ).insert(v),
    ensures
        b.children_keys(height, count) =~= a.children_keys(height, count).insert(v),
    decreases count,
{
    if i == count - 1 {
        lemma_children_keys_pointwise(a, b, height, count - 1);
    } else {
        lemma_children_keys_one_updated(a, b, height, i, count - 1, v);
        assert(a.spec_child(count - 1) == b.spec_child(count - 1));
    }
}

/// If node `b` is node `a` with one more child spliced in at `i`, the
/// children's key union grows by exactly that child's keys.
proof fn lemma_children_keys_child_inserted(a: Node, b: Node, height: nat, i: int, count: int)
    requires
        height > 0,
        0 <= i < count,
        forall|j: int| 0 <= j < i ==> b.spec_child(j) == a.spec_child(j),
        forall|j: int| i < j < count ==> b.spec_child(j) == a.spec_child(j - 1),
    ensures
        b.children_keys(height, count) =~= a.children_keys(height, count - 1).union(
            b.spec_child(i).keys((height - 1) as nat),
        ),
    decreases count,
{
    if i == count - 1 {
        lemma_children_keys_pointwise(a, b, height, count - 1);
    } else {
        lemma_children_keys_child_inserted(a, b, height, i, count - 1);
        assert(b.spec_child(count - 1) == a.spec_child(count - 2));
    }
}

/// One definitional step of [`Node::children_keys`].
pub(crate) proof fn lemma_children_keys_unfold(n: Node, height: nat, count: int)
    requires
        height > 0,
        count >= 1,
    ensures
        n.children_keys(height, count) == n.children_keys(height, count - 1).union(
            n.spec_child(count - 1).keys((height - 1) as nat),
        ),
        n.children_keys(height, 0) == Set::<int>::empty(),
{
}

impl Node {
    /// The state `insert` reaches on a full node: the value's insertion
    /// position is `index`, every pivot left of it is smaller and right of
    /// it greater, and for an internal node the incoming `child` is the new
    /// right subtree of `value` while child `index` has shrunk to the left
    /// subtree.
    pub(crate) open spec fn split_pre(
        self,
        height: nat,
        lo: Option<int>,
        hi: Option<int>,
        index: int,
        value: i32,
        child: Option<Box<Node>>,
    ) -> bool {
        &&& self.pivots@.len() == self.len
        &&& self.len == M
        &&& strictly_sorted(self.pivots@)
        &&& (forall|i: int| 0 <= i < self.len ==> in_bounds(lo, #[trigger] self.pivots@[i] as int, hi))
        &&& 0 <= index <= M
        &&& (forall|j: int| 0 <= j < index ==> self.pivots@[j] < value)
        &&& (forall|j: int| index <= j < self.len ==> self.pivots@[j] > value)
        &&& in_bounds(lo, value as int, hi)
        &&& if height == 0 {
            self.children.head is None && self.children.tail@.len() == 0 && child is None
        } else {
            &&& self.children.head is Some
            &&& self.children.tail@.len() == self.len
            &&& child is Some
            &&& child.unwrap().wf((height - 1) as nat, Some(value as int), self.child_hi(index, hi))
            &&& child.unwrap().len >= M / 2
            &&& self.spec_child(index).wf(
                (height - 1) as nat,
                self.child_lo(index, lo),
                Some(value as int),
            )
            &&& self.spec_child(index).len >= M / 2
            &&& (forall|j: int|
                0 <= j <= self.len && j != index ==> (#[trigger] self.spec_child(j)).wf(
                    (height - 1) as nat,
                    self.child_lo(j, lo),
                    self.child_hi(j, hi),
                ) && self.spec_child(j).len >= M / 2)
        }
    }

    /// The keys a split must redistribute: the node's own, the value's, and
    /// the incoming child subtree's.
    pub(crate) open spec fn split_input_keys(
        self,
        height: nat,
        value: i32,
        child: Option<Box<Node>>,
    ) -> Set<int> {
        self.keys(height).insert(value as int).union(
            match child {
                Some(c) => c.keys((height - 1) as nat),
                None => Set::empty(),
            },
        )
    }

    /// Split a full node around insertion position `index`: leave `M / 2`
    /// pivots here, move the rest to a fresh right sibling, and hand the
    /// median pivot up. The incoming `child`, when present, becomes the
    /// right child of `value` wherever `value` lands.
    fn insert_split(
        &mut self,
        index: usize,
        value: i32,
        child: Option<Box<Node>>,
        height: usize,
        Ghost(lo): Ghost<Option<int>>,
        Ghost(hi): Ghost<Option<int>>,
    ) -> (r: InsertResult)
        requires
            old(self).split_pre(height as nat, lo, hi, index as int, value, child),
        ensures
            match r {
                InsertResult::Propagate { pivot, right } => {
                    &&& final(self).wf(height as nat, lo, Some(pivot as int))
                    &&& right.wf(height as nat, Some(pivot as int), hi)
                    &&& in_bounds(lo, pivot as int, hi)
                    &&& final(self).len == M / 2
                    &&& right.len == M / 2
                    &&& final(self).keys(height as nat).union(right.keys(height as nat)).insert(
                        pivot as int,
                    ) == old(self).split_input_keys(height as nat, value, child)
                },
                InsertResult::Done => false,
            },
    {
        let ghost h = height as nat;
        let ghost ch = (height - 1) as nat;
        let m2 = M / 2;

        let mut new_node = Node { len: 0, pivots: DetachedArrayVec::new(), children: Children::new() };

        let mid: i32;
        if index == m2 {
            new_node.pivots = self.pivots.split_off(M, m2);
            if let Some(c) = child {
                new_node.children.head = Some(c);
                new_node.children.tail = self.children.tail.split_off(m2);
            }
            mid = value;
        } else if index < m2 {
            new_node.pivots = self.pivots.split_off(M, m2);
            mid = self.pivots.pop(m2);
            self.pivots.insert(m2 - 1, index, value);
            if let Some(c) = child {
                new_node.children.tail = self.children.tail.split_off(m2);
                new_node.children.head = Some(self.children.tail.pop().unwrap());
                self.children.tail.insert(index, c);
            }
        } else {
            let index2 = index - m2 - 1;
            new_node.pivots = self.pivots.split_off(M, m2 + 1);
            mid = self.pivots.pop(m2 + 1);
            new_node.pivots.insert(m2 - 1, index2, value);
            if let Some(c) = child {
                new_node.children.tail = self.children.tail.split_off(m2 + 1);
                new_node.children.head = Some(self.children.tail.pop().unwrap());
                new_node.children.tail.insert(index2, c);
            }
        }
        self.len = m2;
        new_node.len = m2;

        proof {
            let po = *old(self);
            let sf = *self;
            let nn = new_node;
            let pp = po.pivots@;
            let m = M / 2;

            // Pivot sequences of the two halves, and the median, in terms of
            // the original pivots and the inserted value.
            if index == m {
                assert(sf.pivots@ =~= pp.subrange(0, m as int));
                assert(nn.pivots@ =~= pp.subrange(m as int, M as int));
                assert(mid == value);
            } else if index < m {
                assert(sf.pivots@ =~= pp.subrange(0, m as int).drop_last().insert(
                    index as int,
                    value,
                ));
                assert(nn.pivots@ =~= pp.subrange(m as int, M as int));
                assert(mid == pp[m - 1]);
            } else {
                assert(sf.pivots@ =~= pp.subrange(0, m + 1 as int).drop_last());
                assert(nn.pivots@ =~= pp.subrange(m + 1 as int, M as int).insert(
                    index - m - 1 as int,
                    value,
                ));
                assert(mid == pp[m as int]);
            }
            assert(sf.pivots@.len() == m);
            assert(nn.pivots@.len() == m);
            assert(in_bounds(lo, mid as int, hi));

            // Key sets of the pivot pieces.
            lemma_sks_split(pp, 1);
            lemma_sks_singleton(pp.subrange(0, 1));
            lemma_sks_singleton(pp.subrange(1, 2));
            lemma_sks_singleton(sf.pivots@);
            lemma_sks_singleton(nn.pivots@);

            if height == 0 {
                assert(sf.wf(h, lo, Some(mid as int)));
                assert(nn.wf(h, Some(mid as int), hi));
                assert(sf.keys(h).union(nn.keys(h)).insert(mid as int) =~= po.split_input_keys(
                    h,
                    value,
                    child,
                ));
            } else {
                let c0 = po.spec_child(0);
                let c1 = po.spec_child(1);
                let c2 = po.spec_child(2);
                let cc = *child.unwrap();
                assert(po.spec_child(0).wf(ch, po.child_lo(0, lo), po.child_hi(0, hi))
                    || index == 0);
                if index == m {
                    assert(sf.spec_child(0) == c0 && sf.spec_child(1) == c1);
                    assert(nn.spec_child(0) == cc && nn.spec_child(1) == c2);
                } else if index < m {
                    assert(sf.spec_child(0) == c0 && sf.spec_child(1) == cc);
                    assert(nn.spec_child(0) == c1 && nn.spec_child(1) == c2);
                } else {
                    assert(sf.spec_child(0) == c0 && sf.spec_child(1) == c1);
                    assert(nn.spec_child(0) == c2 && nn.spec_child(1) == cc);
                }

                assert forall|j: int| 0 <= j <= sf.len implies (#[trigger] sf.spec_child(j)).wf(
                    ch,
                    sf.child_lo(j, lo),
                    sf.child_hi(j, Some(mid as int)),
                ) && sf.spec_child(j).len >= M / 2 by {
                    if j != index {
                        assert(po.spec_child(j).wf(ch, po.child_lo(j, lo), po.child_hi(j, hi)));
                    }
                }
                assert(sf.wf(h, lo, Some(mid as int)));

                assert forall|j: int| 0 <= j <= nn.len implies (#[trigger] nn.spec_child(j)).wf(
                    ch,
                    nn.child_lo(j, Some(mid as int)),
                    nn.child_hi(j, hi),
                ) && nn.spec_child(j).len >= M / 2 by {
                    if index == m {
                        if j > 0 {
                            assert(po.spec_child(j + m).wf(
                                ch,
                                po.child_lo(j + m, lo),
                                po.child_hi(j + m, hi),
                            ));
                        }
                    } else if index < m {
                        assert(po.spec_child(j + m).wf(
                            ch,
                            po.child_lo(j + m, lo),
                            po.child_hi(j + m, hi),
                        ));
                    } else {
                        if j < index - m {
                            if j + m + 1 == index {
                                assert(po.spec_child(index as int).wf(
                                    ch,
                                    po.child_lo(index as int, lo),
                                    Some(value as int),
                                ));
                            } else {
                                assert(po.spec_child(j + m + 1).wf(
                                    ch,
                                    po.child_lo(j + m + 1, lo),
                                    po.child_hi(j + m + 1, hi),
                                ));
                            }
                        } else if j > index - m {
                            assert(po.spec_child(j + m).wf(
                                ch,
                                po.child_lo(j + m, lo),
                                po.child_hi(j + m, hi),
                            ));
                        }
                    }
                }
                assert(nn.wf(h, Some(mid as int), hi));

                lemma_children_keys_unfold(po, h, 3);
                lemma_children_keys_unfold(po, h, 2);
                lemma_children_keys_unfold(po, h, 1);
                lemma_children_keys_unfold(sf, h, 2);
                lemma_children_keys_unfold(sf, h, 1);
                lemma_children_keys_unfold(nn, h, 2);
                lemma_children_keys_unfold(nn, h, 1);
                assert(sf.keys(h).union(nn.keys(h)).insert(mid as int) =~= po.split_input_keys(
                    h,
                    value,
                    child,
                ));
            }
        }

        InsertResult::Propagate { pivot: mid, right: Box::new(new_node) }
    }
}


/// The keys of the subtrees an optional child holds.
pub(crate) open spec fn opt_keys(c: Option<Box<Node>>, height: nat) -> Set<int> {
    match c {
        Some(n) => n.keys(height),
        None => Set::empty(),
    }
}

impl Node {
    /// The keys of the first `count` children, child `skip` left out.
    pub(crate) open spec fn children_keys_except(self, height: nat, count: int, skip: int) -> Set<
        int,
    >
        decreases height, 0int, count,
    {
        if height == 0 || count <= 0 {
            Set::empty()
        } else {
            let rest = self.children_keys_except(height, count - 1, skip);
            if count - 1 == skip {
                rest
            } else {
                rest.union(self.spec_child(count - 1).keys((height - 1) as nat))
            }
        }
    }
}

/// The children's key union is the union without child `skip`, plus child
/// `skip`'s own keys.
proof fn lemma_children_keys_except(n: Node, height: nat, count: int, skip: int)
    requires
        height > 0,
        0 <= skip < count,
    ensures
        n.children_keys(height, count) =~= n.children_keys_except(height, count, skip).union(
            n.spec_child(skip).keys((height - 1) as nat),
        ),
    decreases count,
{
    if skip == count - 1 {
        lemma_children_keys_except_skip_high(n, height, count - 1, skip);
    } else {
        lemma_children_keys_except(n, height, count - 1, skip);
    }
}

/// Skipping a child at or past `count` skips nothing.
proof fn lemma_children_keys_except_skip_high(n: Node, height: nat, count: int, skip: int)
    requires
        height > 0,
        skip >= count,
    ensures
        n.children_keys_except(height, count, skip) == n.children_keys(height, count),
    decreases count,
{
    if count > 0 {
        lemma_children_keys_except_skip_high(n, height, count - 1, skip);
    }
}

/// Two nodes with the same children apart from `skip` agree on the key
/// union that leaves `skip` out.
proof fn lemma_children_keys_except_pointwise(a: Node, b: Node, height: nat, count: int, skip: int)
    requires
        height > 0,
        forall|j: int| 0 <= j < count && j != skip ==> a.spec_child(j) == b.spec_child(j),
    ensures
        a.children_keys_except(height, count, skip) == b.children_keys_except(height, count, skip),
    decreases count,
{
    if count > 0 {
        lemma_children_keys_except_pointwise(a, b, height, count - 1, skip);
        if count - 1 != skip {
            assert(a.spec_child(count - 1) == b.spec_child(count - 1));
        }
    }
}

impl Node {
    /// Insert `value` into the subtree: replace the equal pivot if one
    /// exists, otherwise add the value at its position, recursing into the
    /// branch child and splitting on overflow. `Done` means the subtree
    /// absorbed the value; `Propagate` hands the parent the median pivot
    /// and the new right sibling of this node.
    #[verifier::rlimit(50)]
    pub(crate) fn insert(
        &mut self,
        value: i32,
        height: usize,
        Ghost(lo): Ghost<Option<int>>,
        Ghost(hi): Ghost<Option<int>>,
    ) -> (r: InsertResult)
        requires
            old(self).wf(height as nat, lo, hi),
            in_bounds(lo, value as int, hi),
        ensures
            match r {
                InsertResult::Done => {
                    &&& final(self).wf(height as nat, lo, hi)
                    &&& final(self).keys(height as nat) == old(self).keys(height as nat).insert(
                        value as int,
                    )
                    &&& old(self).len <= final(self).len <= M
                },
                InsertResult::Propagate { pivot, right } => {
                    &&& final(self).wf(height as nat, lo, Some(pivot as int))
                    &&& right.wf(height as nat, Some(pivot as int), hi)
                    &&& in_bounds(lo, pivot as int, hi)
                    &&& final(self).len == M / 2
                    &&& right.len == M / 2
                    &&& final(self).keys(height as nat).union(right.keys(height as nat)).insert(
                        pivot as int,
                    ) == old(self).keys(height as nat).insert(value as int)
                },
            },
        decreases height,
    {
        let ghost h = height as nat;
        let ghost ch = (height - 1) as nat;
        let ghost target = old(self).keys(h).insert(value as int);
        let len = self.len;
        let probe = Probe::Key(value);

        let index = match probe.binary_search(&self.pivots, len, height) {
            Ok(i) => {
                // Exact hit: overwrite the pivot in place. The subtree below
                // is untouched; for integer keys the stored sequence does not
                // change at all.
                let _replaced = self.pivots.replace(len, i, value);
                proof {
                    assert(self.pivots@ =~= old(self).pivots@);
                    lemma_node_congruent(*self, *old(self), h);
                    old(self).lemma_pivot_in_keys(h, i as int);
                    assert(self.keys(h) =~= target);
                }
                return InsertResult::Done;
            },
            Err(i) => i,
        };

        let mut cur = value;
        let mut new_child: Option<Box<Node>> = None;

        if height > 0 {
            let ghost clo = self.child_lo(index as int, lo);
            let ghost chi = self.child_hi(index as int, hi);
            proof {
                assert(old(self).spec_child(index as int).wf(ch, clo, chi) && old(
                    self,
                ).spec_child(index as int).len >= M / 2);
            }
            let mut child = self.take_child(index);
            let ghost cold = *child;
            let res = (&mut *child).insert(cur, height - 1, Ghost(clo), Ghost(chi));
            match res {
                InsertResult::Done => {
                    let ghost cfin = *child;
                    self.put_child(index, child);
                    proof {
                        let po = *old(self);
                        let sf = *self;
                        assert(sf.children.tail@.len() == po.children.tail@.len());
                        assert forall|t: int|
                            0 <= t < po.children.tail@.len() && t != index - 1 implies
                            sf.children.tail@[t] == po.children.tail@[t] by {}
                        assert(sf.spec_child(index as int) == cfin);
                        assert forall|j: int| 0 <= j <= sf.len && j != index implies #[trigger] sf
                            .spec_child(j) == po.spec_child(j) by {}
                        assert forall|j: int| 0 <= j <= sf.len implies (#[trigger] sf.spec_child(
                            j,
                        )).wf(ch, sf.child_lo(j, lo), sf.child_hi(j, hi)) && sf.spec_child(j).len
                            >= M / 2 by {
                            if j != index {
                                assert(po.spec_child(j).wf(
                                    ch,
                                    po.child_lo(j, lo),
                                    po.child_hi(j, hi),
                                ));
                            }
                        }
                        assert(sf.wf(h, lo, hi));
                        lemma_children_keys_one_updated(
                            po,
                            sf,
                            h,
                            index as int,
                            po.len + 1,
                            value as int,
                        );
                        assert(sf.keys(h) =~= target);
                    }
                    return InsertResult::Done;
                },
                InsertResult::Propagate { pivot, right } => {
                    let ghost cleft = *child;
                    let ghost rkeys = right.keys(ch);
                    self.put_child(index, child);
                    cur = pivot;
                    new_child = Some(right);
                    proof {
                        assert(opt_keys(new_child, ch) == rkeys);
                        assert(cleft.keys(ch).union(rkeys).insert(cur as int) == cold.keys(
                            ch,
                        ).insert(value as int));
                        let po = *old(self);
                        let sf = *self;
                        assert(sf.children.tail@.len() == po.children.tail@.len());
                        assert forall|t: int|
                            0 <= t < po.children.tail@.len() && t != index - 1 implies
                            sf.children.tail@[t] == po.children.tail@[t] by {}
                        assert(sf.spec_child(index as int) == cleft);
                        assert forall|j: int| 0 <= j <= sf.len && j != index implies #[trigger] sf
                            .spec_child(j) == po.spec_child(j) by {}
                        // The propagated median sits between the pivots around
                        // position `index`, exactly as the original value did.
                        assert(in_bounds(clo, cur as int, chi));
                        assert forall|j: int| 0 <= j < index implies sf.pivots@[j] < cur by {
                            if j < index - 1 {
                                assert(sf.pivots@[j] < sf.pivots@[index - 1]);
                            }
                        }
                        assert forall|j: int| index <= j < sf.len implies sf.pivots@[j] > cur by {
                            if j > index {
                                assert(sf.pivots@[index as int] < sf.pivots@[j]);
                            }
                        }
                        assert(in_bounds(lo, sf.pivots@[0] as int, hi) || index == 0);
                        assert(in_bounds(lo, cur as int, hi));
                        // Keys: the branch child's keys shrank to the left
                        // part; the median and right sibling carry the rest.
                        lemma_children_keys_except(po, h, po.len + 1, index as int);
                        lemma_children_keys_except(sf, h, sf.len + 1, index as int);
                        lemma_children_keys_except_pointwise(po, sf, h, po.len + 1, index as int);
                        assert(po.keys(h) == seq_key_set(po.pivots@).union(
                            po.children_keys(h, po.len + 1),
                        ));
                        assert(po.children_keys(h, po.len + 1) == po.children_keys_except(
                            h,
                            po.len + 1,
                            index as int,
                        ).union(cold.keys(ch)));
                        assert(sf.keys(h) == seq_key_set(sf.pivots@).union(
                            sf.children_keys(h, sf.len + 1),
                        ));
                        assert(sf.children_keys(h, sf.len + 1) == sf.children_keys_except(
                            h,
                            sf.len + 1,
                            index as int,
                        ).union(cleft.keys(ch)));
                        assert(sf.pivots@ == po.pivots@);
                        let lhs = sf.keys(h).insert(cur as int).union(rkeys);
                        assert forall|k: int| lhs.contains(k) implies target.contains(k) by {
                            if k == cur as int || rkeys.contains(k) || cleft.keys(ch).contains(
                                k,
                            ) {
                                assert(cleft.keys(ch).union(rkeys).insert(cur as int).contains(k));
                                assert(cold.keys(ch).insert(value as int).contains(k));
                                if k != value as int {
                                    assert(po.children_keys(h, po.len + 1).contains(k));
                                }
                            } else {
                                assert(sf.keys(h).contains(k));
                                if seq_key_set(sf.pivots@).contains(k) {
                                    assert(seq_key_set(po.pivots@).contains(k));
                                } else {
                                    assert(sf.children_keys(h, sf.len + 1).contains(k));
                                    assert(sf.children_keys_except(
                                        h,
                                        sf.len + 1,
                                        index as int,
                                    ).contains(k));
                                    assert(po.children_keys(h, po.len + 1).contains(k));
                                }
                                assert(po.keys(h).contains(k));
                            }
                        }
                        assert forall|k: int| target.contains(k) implies lhs.contains(k) by {
                            if k == value as int {
                                assert(cold.keys(ch).insert(value as int).contains(k));
                                assert(cleft.keys(ch).union(rkeys).insert(cur as int).contains(k));
                            } else {
                                assert(po.keys(h).contains(k));
                                if po.children_keys(h, po.len + 1).contains(k) {
                                    if cold.keys(ch).contains(k) {
                                        assert(cold.keys(ch).insert(value as int).contains(k));
                                        assert(cleft.keys(ch).union(rkeys).insert(
                                            cur as int,
                                        ).contains(k));
                                    } else {
                                        assert(po.children_keys_except(
                                            h,
                                            po.len + 1,
                                            index as int,
                                        ).contains(k));
                                        assert(sf.children_keys(h, sf.len + 1).contains(k));
                                        assert(sf.keys(h).contains(k));
                                    }
                                } else {
                                    assert(seq_key_set(po.pivots@).contains(k));
                                    assert(sf.keys(h).contains(k));
                                }
                            }
                        }
                        assert(lhs =~= target);
                        assert(sf.keys(h).insert(cur as int).union(opt_keys(new_child, ch))
                            =~= target);
                    }
                },
            }
        }

        // Insert `cur` here: either the original value at a leaf, or the
        // median propagated by the branch child, whose new right sibling
        // becomes the right child of the new pivot.
        proof {
            if height == 0 {
                assert(self.keys(h).insert(cur as int).union(opt_keys(new_child, ch)) =~= target);
            }
        }

        if self.len == M {
            proof {
                assert((*self).split_pre(h, lo, hi, index as int, cur, new_child));
                assert((*self).split_input_keys(h, cur, new_child) =~= target);
            }
            self.insert_split(index, cur, new_child, height, Ghost(lo), Ghost(hi))
        } else {
            let ghost sm = *self;
            self.pivots.insert(self.len, index, cur);
            let ghost has_new = new_child is Some;
            if let Some(c) = new_child {
                self.children.tail.insert(index, c);
            }
            self.len = self.len + 1;
            proof {
                let sf = *self;
                assert(sf.pivots@ == sm.pivots@.insert(index as int, cur));
                assert forall|a: int, b: int| 0 <= a < b < sf.pivots@.len() implies sf.pivots@[a]
                    < sf.pivots@[b] by {
                    if b < index {
                    } else if a > index {
                    } else if a == index {
                        assert(sf.pivots@[b] == sm.pivots@[b - 1]);
                    } else if b == index {
                        assert(sf.pivots@[a] == sm.pivots@[a]);
                    } else {
                        assert(sf.pivots@[a] == sm.pivots@[a] && sf.pivots@[b] == sm.pivots@[b
                            - 1]);
                    }
                }
                lemma_sks_insert(sm.pivots@, index as int, cur);
                if height == 0 {
                    assert(sf.wf(h, lo, hi));
                    assert(sf.keys(h) =~= target);
                } else {
                    let nc = sf.spec_child(index + 1 as int);
                    assert forall|j: int| 0 <= j <= index implies #[trigger] sf.spec_child(j)
                        == sm.spec_child(j) by {}
                    assert forall|j: int| index + 1 < j <= sf.len implies #[trigger] sf.spec_child(
                        j,
                    ) == sm.spec_child(j - 1) by {}
                    assert forall|j: int| 0 <= j <= sf.len implies (#[trigger] sf.spec_child(
                        j,
                    )).wf(ch, sf.child_lo(j, lo), sf.child_hi(j, hi)) && sf.spec_child(j).len >= M
                        / 2 by {
                        if j <= index {
                            if j != index {
                                assert(sm.spec_child(j).wf(
                                    ch,
                                    sm.child_lo(j, lo),
                                    sm.child_hi(j, hi),
                                ));
                            }
                        } else if j > index + 1 {
                            assert(sm.spec_child(j - 1).wf(
                                ch,
                                sm.child_lo(j - 1, lo),
                                sm.child_hi(j - 1, hi),
                            ));
                        }
                    }
                    assert(sf.wf(h, lo, hi));
                    lemma_children_keys_child_inserted(sm, sf, h, index + 1, sf.len + 1);
                    assert(sf.keys(h) =~= target);
                }
            }
            InsertResult::Done
        }
    }
}


impl Node {
    /// The keys of children `from` (inclusive) to `to` (exclusive).
    pub(crate) open spec fn children_keys_range(self, height: nat, from: int, to: int) -> Set<int>
        decreases height, 0int, to - from,
    {
        if height == 0 || to <= from {
            Set::empty()
        } else {
            self.children_keys_range(height, from, to - 1).union(
                self.spec_child(to - 1).keys((height - 1) as nat),
            )
        }
    }
}

/// The first `count` children's keys are the keys of the range `[0, count)`.
proof fn lemma_ck_is_range(n: Node, height: nat, count: int)
    requires
        height > 0,
    ensures
        n.children_keys(height, count) == n.children_keys_range(height, 0, count),
    decreases count,
{
    if count > 0 {
        lemma_ck_is_range(n, height, count - 1);
    }
}

/// A range of children's keys splits at any point.
proof fn lemma_ckr_split(n: Node, height: nat, from: int, mid: int, to: int)
    requires
        height > 0,
        from <= mid <= to,
    ensures
        n.children_keys_range(height, from, to) =~= n.children_keys_range(
            height,
            from,
            mid,
        ).union(n.children_keys_range(height, mid, to)),
    decreases to - mid,
{
    if mid < to {
        lemma_ckr_split(n, height, from, mid, to - 1);
    }
}

/// A range of one child holds that child's keys.
proof fn lemma_ckr_one(n: Node, height: nat, at: int)
    requires
        height > 0,
    ensures
        n.children_keys_range(height, at, at + 1) =~= n.spec_child(at).keys((height - 1) as nat),
{
    assert(n.children_keys_range(height, at, at) == Set::<int>::empty());
}

/// Ranges of equal children, possibly at an offset, hold equal keys.
proof fn lemma_ckr_shift(a: Node, b: Node, height: nat, off: int, from: int, to: int)
    requires
        height > 0,
        forall|j: int| from <= j < to ==> b.spec_child(j + off) == a.spec_child(j),
    ensures
        b.children_keys_range(height, from + off, to + off) == a.children_keys_range(
            height,
            from,
            to,
        ),
    decreases to - from,
{
    if from < to {
        lemma_ckr_shift(a, b, height, off, from, to - 1);
        assert(b.spec_child(to - 1 + off) == a.spec_child(to - 1));
    }
}

/// Well-formedness bounds may be widened.
proof fn lemma_wf_widen(n: Node, height: nat, lo: Option<int>, hi: Option<int>, lo2: Option<int>, hi2: Option<int>)
    requires
        n.wf(height, lo, hi),
        match lo2 {
            None => true,
            Some(l2) => lo is Some && l2 <= lo.unwrap(),
        },
        match hi2 {
            None => true,
            Some(h2) => hi is Some && hi.unwrap() <= h2,
        },
    ensures
        n.wf(height, lo2, hi2),
    decreases height,
{
    if height > 0 {
        assert forall|i: int| 0 <= i <= n.len implies (#[trigger] n.spec_child(i)).wf(
            (height - 1) as nat,
            n.child_lo(i, lo2),
            n.child_hi(i, hi2),
        ) && n.spec_child(i).len >= M / 2 by {
            assert(n.spec_child(i).wf((height - 1) as nat, n.child_lo(i, lo), n.child_hi(i, hi)));
            if i == 0 && i == n.len {
                lemma_wf_widen(n.spec_child(i), (height - 1) as nat, lo, hi, lo2, hi2);
            } else if i == 0 {
                lemma_wf_widen(
                    n.spec_child(i),
                    (height - 1) as nat,
                    lo,
                    n.child_hi(i, hi),
                    lo2,
                    n.child_hi(i, hi2),
                );
            } else if i == n.len {
                lemma_wf_widen(
                    n.spec_child(i),
                    (height - 1) as nat,
                    n.child_lo(i, lo),
                    hi,
                    n.child_lo(i, lo2),
                    hi2,
                );
            }
        }
    }
}

/// A subtree whose keys all lie below `p` is well-formed with `p` as its
/// upper bound.
proof fn lemma_wf_tighten_hi(n: Node, height: nat, lo: Option<int>, hi: Option<int>, p: int)
    requires
        n.wf(height, lo, hi),
        forall|k: int| n.keys(height).contains(k) ==> k < p,
    ensures
        n.wf(height, lo, Some(p)),
    decreases height,
{
    assert forall|i: int| 0 <= i < n.len implies in_bounds(
        lo,
        #[trigger] n.pivots@[i] as int,
        Some(p),
    ) by {
        n.lemma_pivot_in_keys(height, i);
    }
    if height > 0 {
        let ch = (height - 1) as nat;
        n.lemma_child_keys_in_keys(height, n.len as int);
        assert forall|i: int| 0 <= i <= n.len implies (#[trigger] n.spec_child(i)).wf(
            ch,
            n.child_lo(i, lo),
            n.child_hi(i, Some(p)),
        ) && n.spec_child(i).len >= M / 2 by {
            assert(n.spec_child(i).wf(ch, n.child_lo(i, lo), n.child_hi(i, hi)));
            if i == n.len {
                assert forall|k: int| n.spec_child(i).keys(ch).contains(k) implies k < p by {
                    assert(n.keys(height).contains(k));
                }
                lemma_wf_tighten_hi(n.spec_child(i), ch, n.child_lo(i, lo), hi, p);
            }
        }
    }
}

impl Children {
    /// Take the first child out: the old `head` is returned, `tail[0]`
    /// becomes the new `head`.
    pub(crate) fn pop_front(&mut self, len: usize) -> (r: Box<Node>)
        requires
            old(self).head is Some,
            len == old(self).tail@.len(),
            len >= 1,
        ensures
            r == old(self).head.unwrap(),
            final(self).head == Some(old(self).tail@[0]),
            final(self).tail@ == old(self).tail@.remove(0),
    {
        let first = self.tail.remove(0);
        let old_head = self.head.take().unwrap();
        self.head = Some(first);
        old_head
    }

    /// Push a new first child: `t` becomes `head`, the old `head` moves to
    /// `tail[0]`.
    pub(crate) fn push_front(&mut self, len: usize, t: Box<Node>)
        requires
            old(self).head is Some,
            len == old(self).tail@.len(),
        ensures
            final(self).head == Some(t),
            final(self).tail@ == old(self).tail@.insert(0, old(self).head.unwrap()),
    {
        let old_head = self.head.take().unwrap();
        self.tail.insert(0, old_head);
        self.head = Some(t);
    }
}


/// Rebalance two siblings by moving one element leftwards: the separating
/// pivot `sep` drops to the end of `lhs`, the first pivot of `rhs` is
/// promoted and returned as the new separator, and (for internal nodes) the
/// first child of `rhs` becomes the last child of `lhs`.
fn rotate_left(
    ch: usize,
    lhs: &mut Node,
    sep: i32,
    rhs: &mut Node,
    Ghost(llo): Ghost<Option<int>>,
    Ghost(rhi): Ghost<Option<int>>,
) -> (r: i32)
    requires
        old(lhs).wf(ch as nat, llo, Some(sep as int)),
        old(rhs).wf(ch as nat, Some(sep as int), rhi),
        old(lhs).len == M / 2 - 1,
        old(rhs).len > M / 2,
        in_bounds(llo, sep as int, rhi),
    ensures
        final(lhs).wf(ch as nat, llo, Some(r as int)),
        final(rhs).wf(ch as nat, Some(r as int), rhi),
        final(lhs).len == M / 2,
        final(rhs).len == old(rhs).len - 1,
        in_bounds(Some(sep as int), r as int, rhi),
        final(lhs).keys(ch as nat).union(final(rhs).keys(ch as nat)).insert(r as int) == old(
            lhs,
        ).keys(ch as nat).union(old(rhs).keys(ch as nat)).insert(sep as int),
{
    let ghost hh = ch as nat;
    let ghost cch = (ch - 1) as nat;
    let ghost lold = *old(lhs);
    let ghost rold = *old(rhs);
    let rlen = rhs.len;
    let llen = lhs.len;
    let new_sep = rhs.pivots.remove(rlen, 0);
    if ch > 0 {
        let moved = rhs.children.pop_front(rlen);
        lhs.children.tail.push(moved);
    }
    rhs.len = rlen - 1;
    lhs.pivots.push(llen, sep);
    lhs.len = llen + 1;

    proof {
        let lf = *lhs;
        let rf = *rhs;
        rold.lemma_pivot_in_keys(hh, 0);

        // The new left node.
        assert(lf.pivots@ =~= lold.pivots@.insert(llen as int, sep));
        lemma_sks_insert(lold.pivots@, llen as int, sep);
        if ch > 0 {
            assert(rold.spec_child(0).wf(cch, Some(sep as int), Some(rold.pivots@[0] as int))
                && rold.spec_child(0).len >= M / 2);
            assert forall|j: int| 0 <= j <= llen implies #[trigger] lf.spec_child(j)
                == lold.spec_child(j) by {}
            assert(lf.spec_child(llen + 1) == rold.spec_child(0));
            assert forall|j: int| 0 <= j <= lf.len implies (#[trigger] lf.spec_child(j)).wf(
                cch,
                lf.child_lo(j, llo),
                lf.child_hi(j, Some(new_sep as int)),
            ) && lf.spec_child(j).len >= M / 2 by {
                if j <= llen {
                    assert(lold.spec_child(j).wf(
                        cch,
                        lold.child_lo(j, llo),
                        lold.child_hi(j, Some(sep as int)),
                    ));
                }
            }
            lemma_ck_is_range(lf, hh, lf.len + 1);
            lemma_ck_is_range(lold, hh, lold.len + 1);
            lemma_ckr_split(lf, hh, 0, llen + 1, lf.len + 1);
            lemma_ckr_shift(lold, lf, hh, 0, 0, llen + 1);
            lemma_ckr_one(lf, hh, llen + 1);
        }
        assert(lf.wf(hh, llo, Some(new_sep as int)));

        // The new right node.
        assert(rf.pivots@ == rold.pivots@.remove(0));
        lemma_sks_remove(rold.pivots@, 0);
        if ch > 0 {
            assert forall|j: int| 0 <= j <= rf.len implies #[trigger] rf.spec_child(j)
                == rold.spec_child(j + 1) by {}
            assert forall|j: int| 0 <= j <= rf.len implies (#[trigger] rf.spec_child(j)).wf(
                cch,
                rf.child_lo(j, Some(new_sep as int)),
                rf.child_hi(j, rhi),
            ) && rf.spec_child(j).len >= M / 2 by {
                assert(rold.spec_child(j + 1).wf(
                    cch,
                    rold.child_lo(j + 1, Some(sep as int)),
                    rold.child_hi(j + 1, rhi),
                ));
            }
            lemma_ck_is_range(rf, hh, rf.len + 1);
            lemma_ck_is_range(rold, hh, rold.len + 1);
            lemma_ckr_shift(rold, rf, hh, -1, 1, rold.len + 1);
            lemma_ckr_split(rold, hh, 0, 1, rold.len + 1);
            lemma_ckr_one(rold, hh, 0);
        }
        assert(rf.wf(hh, Some(new_sep as int), rhi));

        assert(lf.keys(hh).union(rf.keys(hh)).insert(new_sep as int) =~= lold.keys(hh).union(
            rold.keys(hh),
        ).insert(sep as int));
    }
    new_sep
}

/// Rebalance two siblings by moving one element rightwards: the separating
/// pivot `sep` drops to the front of `rhs`, the last pivot of `lhs` is
/// promoted and returned as the new separator, and (for internal nodes) the
/// last child of `lhs` becomes the first child of `rhs`.
fn rotate_right(
    ch: usize,
    lhs: &mut Node,
    sep: i32,
    rhs: &mut Node,
    Ghost(llo): Ghost<Option<int>>,
    Ghost(rhi): Ghost<Option<int>>,
) -> (r: i32)
    requires
        old(lhs).wf(ch as nat, llo, Some(sep as int)),
        old(rhs).wf(ch as nat, Some(sep as int), rhi),
        old(lhs).len > M / 2,
        old(rhs).len == M / 2 - 1,
        in_bounds(llo, sep as int, rhi),
    ensures
        final(lhs).wf(ch as nat, llo, Some(r as int)),
        final(rhs).wf(ch as nat, Some(r as int), rhi),
        final(lhs).len == old(lhs).len - 1,
        final(rhs).len == M / 2,
        in_bounds(llo, r as int, Some(sep as int)),
        final(lhs).keys(ch as nat).union(final(rhs).keys(ch as nat)).insert(r as int) == old(
            lhs,
        ).keys(ch as nat).union(old(rhs).keys(ch as nat)).insert(sep as int),
{
    let ghost hh = ch as nat;
    let ghost cch = (ch - 1) as nat;
    let ghost lold = *old(lhs);
    let ghost rold = *old(rhs);
    let llen = lhs.len;
    let rlen = rhs.len;
    let new_sep = lhs.pivots.pop(llen);
    if ch > 0 {
        let moved = lhs.children.tail.pop().unwrap();
        rhs.children.push_front(rlen, moved);
    }
    lhs.len = llen - 1;
    rhs.pivots.insert(rlen, 0, sep);
    rhs.len = rlen + 1;

    proof {
        let lf = *lhs;
        let rf = *rhs;
        lold.lemma_pivot_in_keys(hh, llen - 1);

        // The new left node.
        assert(lf.pivots@ == lold.pivots@.remove(llen - 1));
        lemma_sks_remove(lold.pivots@, llen - 1);
        if ch > 0 {
            assert(lold.spec_child(llen as int).wf(
                cch,
                Some(lold.pivots@[llen - 1] as int),
                Some(sep as int),
            ) && lold.spec_child(llen as int).len >= M / 2);
            assert forall|j: int| 0 <= j <= lf.len implies #[trigger] lf.spec_child(j)
                == lold.spec_child(j) by {}
            assert forall|j: int| 0 <= j <= lf.len implies (#[trigger] lf.spec_child(j)).wf(
                cch,
                lf.child_lo(j, llo),
                lf.child_hi(j, Some(new_sep as int)),
            ) && lf.spec_child(j).len >= M / 2 by {
                assert(lold.spec_child(j).wf(
                    cch,
                    lold.child_lo(j, llo),
                    lold.child_hi(j, Some(sep as int)),
                ));
            }
            lemma_ck_is_range(lf, hh, lf.len + 1);
            lemma_ck_is_range(lold, hh, lold.len + 1);
            lemma_ckr_shift(lold, lf, hh, 0, 0, lf.len + 1);
            lemma_ckr_split(lold, hh, 0, lf.len + 1, lold.len + 1);
            lemma_ckr_one(lold, hh, lf.len + 1);
        }
        assert(lf.wf(hh, llo, Some(new_sep as int)));

        // The new right node.
        assert(rf.pivots@ == rold.pivots@.insert(0, sep));
        lemma_sks_insert(rold.pivots@, 0, sep);
        if ch > 0 {
            assert(rf.spec_child(0) == lold.spec_child(llen as int));
            assert forall|j: int| 1 <= j <= rf.len implies #[trigger] rf.spec_child(j)
                == rold.spec_child(j - 1) by {}
            assert forall|j: int| 0 <= j <= rf.len implies (#[trigger] rf.spec_child(j)).wf(
                cch,
                rf.child_lo(j, Some(new_sep as int)),
                rf.child_hi(j, rhi),
            ) && rf.spec_child(j).len >= M / 2 by {
                if j >= 1 {
                    assert(rold.spec_child(j - 1).wf(
                        cch,
                        rold.child_lo(j - 1, Some(sep as int)),
                        rold.child_hi(j - 1, rhi),
                    ));
                }
            }
            lemma_ck_is_range(rf, hh, rf.len + 1);
            lemma_ck_is_range(rold, hh, rold.len + 1);
            lemma_ckr_shift(rold, rf, hh, 1, 0, rold.len + 1);
            lemma_ckr_split(rf, hh, 0, 1, rf.len + 1);
            lemma_ckr_one(rf, hh, 0);
        }
        assert(rf.wf(hh, Some(new_sep as int), rhi));

        assert(lf.keys(hh).union(rf.keys(hh)).insert(new_sep as int) =~= lold.keys(hh).union(
            rold.keys(hh),
        ).insert(sep as int));
    }
    new_sep
}

/// Merge `rhs` into `lhs` through their separating pivot: the result holds
/// `lhs`'s pivots, then `sep`, then `rhs`'s pivots, with the child arrays
/// concatenated.
#[verifier::loop_isolation(false)]
fn merge(
    ch: usize,
    lhs: &mut Node,
    sep: i32,
    rhs: Node,
    Ghost(llo): Ghost<Option<int>>,
    Ghost(rhi): Ghost<Option<int>>,
)
    requires
        old(lhs).wf(ch as nat, llo, Some(sep as int)),
        rhs.wf(ch as nat, Some(sep as int), rhi),
        old(lhs).len + rhs.len + 1 == M,
        in_bounds(llo, sep as int, rhi),
    ensures
        final(lhs).wf(ch as nat, llo, rhi),
        final(lhs).len == M,
        final(lhs).keys(ch as nat) == old(lhs).keys(ch as nat).union(rhs.keys(ch as nat)).insert(
            sep as int,
        ),
{
    let ghost hh = ch as nat;
    let ghost cch = (ch - 1) as nat;
    let ghost lold = *old(lhs);
    let ghost rr = rhs;
    let llen = lhs.len;
    let rlen = rhs.len;
    let Node { len: _, pivots: mut rp, children: mut rc } = rhs;

    lhs.pivots.push(llen, sep);
    let mut i: usize = 0;
    while i < rlen
        invariant
            0 <= i <= rlen,
            lhs.pivots@ == lold.pivots@.push(sep) + rr.pivots@.subrange(0, i as int),
            rp@ == rr.pivots@.subrange(i as int, rlen as int),
            lhs.len == lold.len,
            lhs.children == lold.children,
        decreases rlen - i,
    {
        let v = rp.remove(rlen - i, 0);
        lhs.pivots.push(llen + 1 + i, v);
        proof {
            assert(lhs.pivots@ =~= lold.pivots@.push(sep) + rr.pivots@.subrange(0, i + 1));
            assert(rp@ =~= rr.pivots@.subrange(i + 1, rlen as int));
        }
        i = i + 1;
    }

    if ch > 0 {
        let head_child = rc.head.take().unwrap();
        lhs.children.tail.push(head_child);
        let mut j: usize = 0;
        while j < rlen
            invariant
                0 <= j <= rlen,
                lhs.children.head == lold.children.head,
                lhs.children.tail@ == lold.children.tail@.push(rr.children.head.unwrap())
                    + rr.children.tail@.subrange(0, j as int),
                rc.tail@ == rr.children.tail@.subrange(j as int, rlen as int),
                lhs.len == lold.len,
                lhs.pivots@ == lold.pivots@.push(sep) + rr.pivots@,
            decreases rlen - j,
        {
            let c = rc.tail.remove(0);
            lhs.children.tail.push(c);
            proof {
                assert(lhs.children.tail@ =~= lold.children.tail@.push(rr.children.head.unwrap())
                    + rr.children.tail@.subrange(0, j + 1));
                assert(rc.tail@ =~= rr.children.tail@.subrange(j + 1, rlen as int));
            }
            j = j + 1;
        }
    }
    lhs.len = M;

    proof {
        let lf = *lhs;
        assert(lf.pivots@ =~= lold.pivots@.push(sep) + rr.pivots@);
        assert(lold.pivots@.push(sep) =~= lold.pivots@.insert(llen as int, sep));
        lemma_sks_insert(lold.pivots@, llen as int, sep);
        lemma_sks_split(lf.pivots@, llen + 1);
        assert(lf.pivots@.subrange(0, llen + 1) =~= lold.pivots@.push(sep));
        assert(lf.pivots@.subrange(llen + 1, M as int) =~= rr.pivots@);

        if ch > 0 {
            assert forall|j: int| 0 <= j <= llen implies #[trigger] lf.spec_child(j)
                == lold.spec_child(j) by {}
            assert forall|j: int| 0 <= j <= rlen implies #[trigger] lf.spec_child(j + llen + 1)
                == rr.spec_child(j) by {}
            assert forall|j: int| 0 <= j <= lf.len implies (#[trigger] lf.spec_child(j)).wf(
                cch,
                lf.child_lo(j, llo),
                lf.child_hi(j, rhi),
            ) && lf.spec_child(j).len >= M / 2 by {
                if j <= llen {
                    assert(lold.spec_child(j).wf(
                        cch,
                        lold.child_lo(j, llo),
                        lold.child_hi(j, Some(sep as int)),
                    ));
                } else {
                    assert(lf.spec_child(j) == rr.spec_child(j - llen - 1));
                    assert(rr.spec_child(j - llen - 1).wf(
                        cch,
                        rr.child_lo(j - llen - 1, Some(sep as int)),
                        rr.child_hi(j - llen - 1, rhi),
                    ));
                }
            }
            lemma_ck_is_range(lf, hh, lf.len + 1);
            lemma_ck_is_range(lold, hh, lold.len + 1);
            lemma_ck_is_range(rr, hh, rr.len + 1);
            lemma_ckr_split(lf, hh, 0, llen + 1, lf.len + 1);
            lemma_ckr_shift(lold, lf, hh, 0, 0, llen + 1);
            lemma_ckr_shift(rr, lf, hh, llen + 1, 0, rlen + 1);
        }
        assert(lf.wf(hh, llo, rhi));
        assert(lf.keys(hh) =~= lold.keys(hh).union(rr.keys(hh)).insert(sep as int));
    }
}


impl RemoveResult {
    /// The removed value, whichever way it is wrapped.
    pub(crate) open spec fn value(self) -> i32 {
        match self {
            RemoveResult::Underflow(v) => v,
            RemoveResult::Done(v) => v,
        }
    }
}

/// What value a probe picks out of a key set: the probed key itself, or the
/// least or greatest key.
pub(crate) open spec fn probe_selects(p: Probe, v: int, keys: Set<int>) -> bool {
    match p {
        Probe::Key(k) => v == k as int,
        Probe::First => is_min_key(v, keys),
        Probe::Last => is_max_key(v, keys),
    }
}

impl Node {
    /// Well-formed as an internal node, except that child `index` may have
    /// underflowed to `M / 2 - 1` pivots.
    pub(crate) open spec fn wf_except(
        self,
        height: nat,
        lo: Option<int>,
        hi: Option<int>,
        index: int,
    ) -> bool {
        &&& self.pivots@.len() == self.len
        &&& 1 <= self.len <= M
        &&& (forall|i: int| 0 <= i < self.len ==> in_bounds(lo, #[trigger] self.pivots@[i] as int, hi))
        &&& strictly_sorted(self.pivots@)
        &&& height > 0
        &&& self.children.head is Some
        &&& self.children.tail@.len() == self.len
        &&& 0 <= index <= self.len
        &&& (forall|j: int|
            0 <= j <= self.len ==> (#[trigger] self.spec_child(j)).wf(
                (height - 1) as nat,
                self.child_lo(j, lo),
                self.child_hi(j, hi),
            ))
        &&& (forall|j: int|
            0 <= j <= self.len && j != index ==> (#[trigger] self.spec_child(j)).len >= M / 2)
        &&& self.spec_child(index).len == M / 2 - 1
    }

    /// Repair the underflowed child `index`: borrow an element from a
    /// sibling that can spare one (right first), else merge the child with a
    /// sibling (the right one if it exists, else the left). The subtree's
    /// key set does not change; the node loses one pivot exactly when a
    /// merge was needed.
    fn repair_underflow(
        &mut self,
        index: usize,
        height: usize,
        Ghost(lo): Ghost<Option<int>>,
        Ghost(hi): Ghost<Option<int>>,
    )
        requires
            old(self).wf_except(height as nat, lo, hi, index as int),
            height >= 1,
        ensures
            final(self).wf(height as nat, lo, hi),
            final(self).keys(height as nat) == old(self).keys(height as nat),
            old(self).len - 1 <= final(self).len <= old(self).len,
    {
        let ghost h = height as nat;
        let ghost ch = (height - 1) as nat;
        let ghost po = *old(self);
        let len = self.len;

        if index < len {
            let rlen = self.children.get(len, index + 1, Ghost(*self)).len;
            if rlen > M / 2 {
                // Rotate left through the pivot at `index`.
                let ghost glo = self.child_lo(index as int, lo);
                let ghost ghi = self.child_hi(index + 1 as int, hi);
                let mut right = self.take_child(index + 1);
                let mut cnode = self.take_child(index);
                let sep = *self.pivots.get(len, index);
                let new_sep = rotate_left(
                    height - 1,
                    &mut *cnode,
                    sep,
                    &mut *right,
                    Ghost(glo),
                    Ghost(ghi),
                );
                let _ = self.pivots.replace(len, index, new_sep);
                let ghost cfin = *cnode;
                let ghost rfin = *right;
                self.put_child(index, cnode);
                self.put_child(index + 1, right);
                proof {
                    let sf = *self;
                    assert(sf.len == po.len && sf.children.tail@.len() == po.children.tail@.len());
                    assert(sf.pivots@ == po.pivots@.update(index as int, new_sep));
                    assert(sf.spec_child(index as int) == cfin);
                    assert(sf.spec_child(index + 1) == rfin);
                    assert forall|j: int| 0 <= j <= sf.len && j != index && j != index + 1 implies
                        #[trigger] sf.spec_child(j) == po.spec_child(j) by {}
                    assert forall|j: int| 0 <= j <= sf.len implies (#[trigger] sf.spec_child(
                        j,
                    )).wf(ch, sf.child_lo(j, lo), sf.child_hi(j, hi)) && sf.spec_child(j).len >= M
                        / 2 by {
                        if j != index && j != index + 1 {
                            assert(po.spec_child(j).wf(ch, po.child_lo(j, lo), po.child_hi(j, hi)));
                        }
                    }
                    assert(sf.wf(h, lo, hi));
                    // Keys: the pivot swaps against the rotated pair.
                    assert(sep == po.pivots@[index as int]);
                    lemma_pair_update_keys(po, sf, h, index as int, new_sep);
                    assert(sf.keys(h) =~= po.keys(h));
                }
                return ;
            }
        }
        if index >= 1 {
            let llen = self.children.get(len, index - 1, Ghost(*self)).len;
            if llen > M / 2 {
                // Rotate right through the pivot at `index - 1`.
                let ghost glo = self.child_lo(index - 1 as int, lo);
                let ghost ghi = self.child_hi(index as int, hi);
                let mut cnode = self.take_child(index);
                let mut leftn = self.take_child(index - 1);
                let sep = *self.pivots.get(len, index - 1);
                let new_sep = rotate_right(
                    height - 1,
                    &mut *leftn,
                    sep,
                    &mut *cnode,
                    Ghost(glo),
                    Ghost(ghi),
                );
                let _ = self.pivots.replace(len, index - 1, new_sep);
                let ghost lfin = *leftn;
                let ghost cfin = *cnode;
                self.put_child(index - 1, leftn);
                self.put_child(index, cnode);
                proof {
                    let sf = *self;
                    assert(sf.len == po.len && sf.children.tail@.len() == po.children.tail@.len());
                    assert(sf.pivots@ == po.pivots@.update(index - 1, new_sep));
                    assert(sf.spec_child(index - 1) == lfin);
                    assert(sf.spec_child(index as int) == cfin);
                    assert forall|j: int| 0 <= j <= sf.len && j != index && j != index - 1 implies
                        #[trigger] sf.spec_child(j) == po.spec_child(j) by {}
                    assert forall|j: int| 0 <= j <= sf.len implies (#[trigger] sf.spec_child(
                        j,
                    )).wf(ch, sf.child_lo(j, lo), sf.child_hi(j, hi)) && sf.spec_child(j).len >= M
                        / 2 by {
                        if j != index && j != index - 1 {
                            assert(po.spec_child(j).wf(ch, po.child_lo(j, lo), po.child_hi(j, hi)));
                        }
                    }
                    assert(sf.wf(h, lo, hi));
                    assert(sep == po.pivots@[index - 1]);
                    lemma_pair_update_keys(po, sf, h, index - 1, new_sep);
                    assert(sf.keys(h) =~= po.keys(h));
                }
                return ;
            }
        }
        if index < len {
            // Merge the child with its right sibling.
            let ghost glo = self.child_lo(index as int, lo);
            let ghost ghi = self.child_hi(index + 1 as int, hi);
            let right = self.take_child(index + 1);
            let mut cnode = self.take_child(index);
            let sep = self.pivots.remove(len, index);
            self.len = len - 1;
            merge(height - 1, &mut *cnode, sep, *right, Ghost(glo), Ghost(ghi));
            let ghost cfin = *cnode;
            self.put_child(index, cnode);
            proof {
                let sf = *self;
                assert(sf.len == po.len - 1);
                assert(sf.pivots@ == po.pivots@.remove(index as int));
                assert(sf.spec_child(index as int) == cfin);
                assert forall|j: int| 0 <= j < index implies #[trigger] sf.spec_child(j)
                    == po.spec_child(j) by {}
                assert forall|j: int| index < j <= sf.len implies #[trigger] sf.spec_child(j)
                    == po.spec_child(j + 1) by {}
                assert forall|j: int| 0 <= j <= sf.len implies (#[trigger] sf.spec_child(j)).wf(
                    ch,
                    sf.child_lo(j, lo),
                    sf.child_hi(j, hi),
                ) && sf.spec_child(j).len >= M / 2 by {
                    if j < index {
                        assert(po.spec_child(j).wf(ch, po.child_lo(j, lo), po.child_hi(j, hi)));
                    } else if j > index {
                        assert(po.spec_child(j + 1).wf(
                            ch,
                            po.child_lo(j + 1, lo),
                            po.child_hi(j + 1, hi),
                        ));
                    }
                }
                assert(sf.wf(h, lo, hi));
                po.lemma_pivot_in_keys(h, index as int);
                lemma_sks_remove(po.pivots@, index as int);
                lemma_ck_is_range(po, h, po.len + 1);
                lemma_ck_is_range(sf, h, sf.len + 1);
                lemma_ckr_split(po, h, 0, index as int, po.len + 1);
                lemma_ckr_split(po, h, index as int, index + 2, po.len + 1);
                lemma_ckr_split(po, h, index as int, index + 1, index + 2);
                lemma_ckr_one(po, h, index as int);
                lemma_ckr_one(po, h, index + 1);
                lemma_ckr_split(sf, h, 0, index as int, sf.len + 1);
                lemma_ckr_split(sf, h, index as int, index + 1, sf.len + 1);
                lemma_ckr_one(sf, h, index as int);
                lemma_ckr_shift(po, sf, h, 0, 0, index as int);
                lemma_ckr_shift(po, sf, h, -1, index + 2, po.len + 1);
                assert(sf.keys(h) =~= po.keys(h));
            }
        } else {
            // No right sibling: merge the child with its left sibling.
            let ghost glo = self.child_lo(index - 1 as int, lo);
            let ghost ghi = self.child_hi(index as int, hi);
            let cnode = self.take_child(index);
            let mut leftn = self.take_child(index - 1);
            let sep = self.pivots.remove(len, index - 1);
            self.len = len - 1;
            merge(height - 1, &mut *leftn, sep, *cnode, Ghost(glo), Ghost(ghi));
            let ghost lfin = *leftn;
            self.put_child(index - 1, leftn);
            proof {
                let sf = *self;
                assert(sf.len == po.len - 1);
                assert(sf.pivots@ == po.pivots@.remove(index - 1));
                assert(sf.spec_child(index - 1) == lfin);
                assert forall|j: int| 0 <= j < index - 1 implies #[trigger] sf.spec_child(j)
                    == po.spec_child(j) by {}
                assert forall|j: int| 0 <= j <= sf.len implies (#[trigger] sf.spec_child(j)).wf(
                    ch,
                    sf.child_lo(j, lo),
                    sf.child_hi(j, hi),
                ) && sf.spec_child(j).len >= M / 2 by {
                    if j < index - 1 {
                        assert(po.spec_child(j).wf(ch, po.child_lo(j, lo), po.child_hi(j, hi)));
                    }
                }
                assert(sf.wf(h, lo, hi));
                po.lemma_pivot_in_keys(h, index - 1);
                lemma_sks_remove(po.pivots@, index - 1);
                lemma_ck_is_range(po, h, po.len + 1);
                lemma_ck_is_range(sf, h, sf.len + 1);
                lemma_ckr_split(po, h, 0, index - 1, po.len + 1);
                lemma_ckr_split(po, h, index - 1, index as int, po.len + 1);
                lemma_ckr_one(po, h, index - 1);
                lemma_ckr_one(po, h, index as int);
                lemma_ckr_split(sf, h, 0, index - 1, sf.len + 1);
                lemma_ckr_one(sf, h, index - 1);
                lemma_ckr_shift(po, sf, h, 0, 0, index - 1);
                assert(sf.keys(h) =~= po.keys(h));
            }
        }
    }
}


/// If two adjacent children and their separating pivot are replaced, and the
/// pair's combined keys (children plus separator) are unchanged, the node's
/// key set is unchanged.
proof fn lemma_pair_update_keys(po: Node, sf: Node, height: nat, index: int, new_sep: i32)
    requires
        height > 0,
        sf.len == po.len,
        0 <= index < po.len,
        po.pivots@.len() == po.len,
        sf.pivots@ == po.pivots@.update(index, new_sep),
        strictly_sorted(po.pivots@),
        forall|j: int|
            0 <= j <= po.len && j != index && j != index + 1 ==> sf.spec_child(j)
                == po.spec_child(j),
        sf.spec_child(index).keys((height - 1) as nat).union(
            sf.spec_child(index + 1).keys((height - 1) as nat),
        ).insert(new_sep as int) == po.spec_child(index).keys((height - 1) as nat).union(
            po.spec_child(index + 1).keys((height - 1) as nat),
        ).insert(po.pivots@[index] as int),
    ensures
        sf.keys(height) =~= po.keys(height),
{
    let ch = (height - 1) as nat;
    let k0 = po.pivots@[index] as int;
    let pair_new = sf.spec_child(index).keys(ch).union(sf.spec_child(index + 1).keys(ch)).insert(
        new_sep as int,
    );
    let pair_old = po.spec_child(index).keys(ch).union(po.spec_child(index + 1).keys(ch)).insert(
        k0,
    );
    lemma_sks_update(po.pivots@, index, new_sep);
    po.lemma_pivot_in_keys(height, index);
    lemma_ck_is_range(po, height, po.len + 1);
    lemma_ck_is_range(sf, height, sf.len + 1);
    lemma_ckr_split(po, height, 0, index, po.len + 1);
    lemma_ckr_split(po, height, index, index + 2, po.len + 1);
    lemma_ckr_split(po, height, index, index + 1, index + 2);
    lemma_ckr_one(po, height, index);
    lemma_ckr_one(po, height, index + 1);
    lemma_ckr_split(sf, height, 0, index, sf.len + 1);
    lemma_ckr_split(sf, height, index, index + 2, sf.len + 1);
    lemma_ckr_split(sf, height, index, index + 1, index + 2);
    lemma_ckr_one(sf, height, index);
    lemma_ckr_one(sf, height, index + 1);
    lemma_ckr_shift(po, sf, height, 0, 0, index);
    lemma_ckr_shift(po, sf, height, 0, index + 2, po.len + 1);

    assert forall|k: int| sf.keys(height).contains(k) implies po.keys(height).contains(k) by {
        if seq_key_set(sf.pivots@).contains(k) && k != new_sep as int {
            assert(seq_key_set(po.pivots@).contains(k));
        } else if k == new_sep as int || sf.children_keys_range(height, index, index + 2).contains(
            k,
        ) {
            assert(pair_new.contains(k));
            assert(pair_old.contains(k));
            if k == k0 {
                assert(seq_key_set(po.pivots@).contains(k));
            } else {
                assert(po.children_keys_range(height, index, index + 2).contains(k));
                assert(po.children_keys(height, po.len + 1).contains(k));
            }
        } else {
            assert(sf.children_keys_range(height, 0, index).contains(k)
                || sf.children_keys_range(height, index + 2, sf.len + 1).contains(k));
            assert(po.children_keys(height, po.len + 1).contains(k));
        }
    }
    assert forall|k: int| po.keys(height).contains(k) implies sf.keys(height).contains(k) by {
        if seq_key_set(po.pivots@).contains(k) && k != k0 {
            assert(seq_key_set(sf.pivots@).contains(k));
        } else if k == k0 || po.children_keys_range(height, index, index + 2).contains(k) {
            assert(pair_old.contains(k));
            assert(pair_new.contains(k));
            if k == new_sep as int {
                assert(seq_key_set(sf.pivots@).contains(k));
            } else {
                assert(sf.children_keys_range(height, index, index + 2).contains(k));
                assert(sf.children_keys(height, sf.len + 1).contains(k));
            }
        } else {
            assert(po.children_keys_range(height, 0, index).contains(k)
                || po.children_keys_range(height, index + 2, po.len + 1).contains(k));
            assert(sf.children_keys(height, sf.len + 1).contains(k));
        }
    }
}


/// If one child's keys shrink by a value `v` that lies strictly between the
/// pivots around it, the node's keys shrink by exactly `v`.
proof fn lemma_child_shrunk_keys(
    po: Node,
    sf: Node,
    height: nat,
    index: int,
    v: int,
    lo: Option<int>,
    hi: Option<int>,
)
    requires
        height > 0,
        po.wf(height, lo, hi),
        0 <= index <= po.len,
        sf.len == po.len,
        sf.pivots@ == po.pivots@,
        forall|j: int| 0 <= j <= po.len && j != index ==> sf.spec_child(j) == po.spec_child(j),
        sf.spec_child(index).keys((height - 1) as nat) == po.spec_child(index).keys(
            (height - 1) as nat,
        ).remove(v),
        po.spec_child(index).keys((height - 1) as nat).contains(v),
    ensures
        sf.keys(height) =~= po.keys(height).remove(v),
{
    let ch = (height - 1) as nat;
    lemma_children_keys_member(po, height, po.len + 1);
    lemma_children_keys_member(sf, height, sf.len + 1);
    lemma_keys_in_bounds(
        po.spec_child(index),
        ch,
        po.child_lo(index, lo),
        po.child_hi(index, hi),
    );
    assert(in_bounds(po.child_lo(index, lo), v, po.child_hi(index, hi)));
    assert forall|k: int| sf.keys(height).contains(k) implies po.keys(height).remove(v).contains(
        k,
    ) by {
        if seq_key_set(sf.pivots@).contains(k) {
            let j = choose|j: int| 0 <= j < po.pivots@.len() && po.pivots@[j] as int == k;
            if j >= index {
                assert(po.pivots@[index] <= po.pivots@[j]);
                assert(v < po.pivots@[index] as int);
            } else {
                assert(po.pivots@[j] <= po.pivots@[index - 1]);
                assert(v > po.pivots@[index - 1] as int);
            }
            assert(k != v);
        } else {
            assert(sf.children_keys(height, sf.len + 1).contains(k));
            let j = choose|j: int|
                0 <= j < sf.len + 1 && (#[trigger] sf.spec_child(j)).keys(ch).contains(k);
            if j == index {
                assert(po.spec_child(index).keys(ch).contains(k) && k != v);
                assert(po.children_keys(height, po.len + 1).contains(k));
            } else {
                assert(po.spec_child(j).keys(ch).contains(k));
                assert(po.children_keys(height, po.len + 1).contains(k));
                assert(po.spec_child(j).wf(ch, po.child_lo(j, lo), po.child_hi(j, hi)));
                lemma_keys_in_bounds(
                    po.spec_child(j),
                    ch,
                    po.child_lo(j, lo),
                    po.child_hi(j, hi),
                );
                assert(in_bounds(po.child_lo(j, lo), k, po.child_hi(j, hi)));
                if j < index {
                    assert(k < po.pivots@[j] as int);
                    assert(po.pivots@[j] <= po.pivots@[index - 1]);
                    assert(v > po.pivots@[index - 1] as int);
                } else {
                    assert(k > po.pivots@[j - 1] as int);
                    assert(po.pivots@[index] <= po.pivots@[j - 1]);
                    assert(v < po.pivots@[index] as int);
                }
                assert(k != v);
            }
        }
    }
    assert forall|k: int| po.keys(height).remove(v).contains(k) implies sf.keys(height).contains(
        k,
    ) by {
        if seq_key_set(po.pivots@).contains(k) {
        } else {
            assert(po.children_keys(height, po.len + 1).contains(k));
            let j = choose|j: int|
                0 <= j < po.len + 1 && (#[trigger] po.spec_child(j)).keys(ch).contains(k);
            if j == index {
                assert(sf.spec_child(index).keys(ch).contains(k));
            } else {
                assert(sf.spec_child(j).keys(ch).contains(k));
            }
            assert(sf.children_keys(height, sf.len + 1).contains(k));
        }
    }
}

/// Exchanging the pivot at `index` for its in-order predecessor — the
/// greatest key of child `index`, removed from that child — removes exactly
/// the old pivot from the node's keys.
proof fn lemma_pivot_swap_keys(
    po: Node,
    sf: Node,
    height: nat,
    index: int,
    pred: i32,
    lo: Option<int>,
    hi: Option<int>,
)
    requires
        height > 0,
        po.wf(height, lo, hi),
        0 <= index < po.len,
        sf.len == po.len,
        sf.pivots@ == po.pivots@.update(index, pred),
        forall|j: int| 0 <= j <= po.len && j != index ==> sf.spec_child(j) == po.spec_child(j),
        sf.spec_child(index).keys((height - 1) as nat) == po.spec_child(index).keys(
            (height - 1) as nat,
        ).remove(pred as int),
        po.spec_child(index).keys((height - 1) as nat).contains(pred as int),
    ensures
        sf.keys(height) =~= po.keys(height).remove(po.pivots@[index] as int),
{
    let ch = (height - 1) as nat;
    let k0 = po.pivots@[index] as int;
    lemma_children_keys_member(po, height, po.len + 1);
    lemma_children_keys_member(sf, height, sf.len + 1);
    assert(po.spec_child(index).wf(ch, po.child_lo(index, lo), po.child_hi(index, hi)));
    lemma_keys_in_bounds(
        po.spec_child(index),
        ch,
        po.child_lo(index, lo),
        po.child_hi(index, hi),
    );
    assert(in_bounds(po.child_lo(index, lo), pred as int, po.child_hi(index, hi)));
    assert((pred as int) < k0);
    lemma_sks_update(po.pivots@, index, pred);
    assert forall|k: int| sf.keys(height).contains(k) implies po.keys(height).remove(k0).contains(
        k,
    ) by {
        if seq_key_set(sf.pivots@).contains(k) {
            if k == pred as int {
                assert(po.children_keys(height, po.len + 1).contains(k));
            } else {
                assert(seq_key_set(po.pivots@).remove(k0).contains(k));
            }
        } else {
            assert(sf.children_keys(height, sf.len + 1).contains(k));
            let j = choose|j: int|
                0 <= j < sf.len + 1 && (#[trigger] sf.spec_child(j)).keys(ch).contains(k);
            if j == index {
                assert(po.spec_child(index).keys(ch).contains(k));
                assert(in_bounds(po.child_lo(index, lo), k, po.child_hi(index, hi)));
                assert(k < k0);
            } else {
                assert(po.spec_child(j).keys(ch).contains(k));
                assert(po.spec_child(j).wf(ch, po.child_lo(j, lo), po.child_hi(j, hi)));
                lemma_keys_in_bounds(
                    po.spec_child(j),
                    ch,
                    po.child_lo(j, lo),
                    po.child_hi(j, hi),
                );
                assert(in_bounds(po.child_lo(j, lo), k, po.child_hi(j, hi)));
                if j < index {
                    assert(k < po.pivots@[j] as int);
                    assert(po.pivots@[j] <= po.pivots@[index]);
                } else {
                    assert(k > po.pivots@[j - 1] as int);
                    assert(po.pivots@[index] <= po.pivots@[j - 1]);
                }
            }
            assert(po.children_keys(height, po.len + 1).contains(k));
            assert(k != k0);
        }
    }
    assert forall|k: int| po.keys(height).remove(k0).contains(k) implies sf.keys(height).contains(
        k,
    ) by {
        if seq_key_set(po.pivots@).contains(k) {
            assert(seq_key_set(sf.pivots@).contains(k));
        } else {
            assert(po.children_keys(height, po.len + 1).contains(k));
            let j = choose|j: int|
                0 <= j < po.len + 1 && (#[trigger] po.spec_child(j)).keys(ch).contains(k);
            if j == index {
                if k == pred as int {
                    assert(seq_key_set(sf.pivots@).contains(k));
                } else {
                    assert(sf.spec_child(index).keys(ch).contains(k));
                    assert(sf.children_keys(height, sf.len + 1).contains(k));
                }
            } else {
                assert(sf.spec_child(j).keys(ch).contains(k));
                assert(sf.children_keys(height, sf.len + 1).contains(k));
            }
        }
    }
}

/// The least key of the leftmost child is the least key of the whole node.
proof fn lemma_min_through_child(n: Node, height: nat, lo: Option<int>, hi: Option<int>, v: int)
    requires
        height > 0,
        n.wf(height, lo, hi),
        n.len >= 1,
        is_min_key(v, n.spec_child(0).keys((height - 1) as nat)),
    ensures
        is_min_key(v, n.keys(height)),
{
    let ch = (height - 1) as nat;
    lemma_children_keys_member(n, height, n.len + 1);
    assert(n.spec_child(0).wf(ch, n.child_lo(0, lo), n.child_hi(0, hi)));
    lemma_keys_in_bounds(n.spec_child(0), ch, n.child_lo(0, lo), n.child_hi(0, hi));
    assert(n.spec_child(0).keys(ch).contains(v));
    assert(in_bounds(n.child_lo(0, lo), v, n.child_hi(0, hi)));
    assert(v < n.pivots@[0] as int);
    assert(n.children_keys(height, n.len + 1).contains(v));
    assert forall|k: int| n.keys(height).contains(k) implies v <= k by {
        if seq_key_set(n.pivots@).contains(k) {
            let j = choose|j: int| 0 <= j < n.pivots@.len() && n.pivots@[j] as int == k;
            assert(n.pivots@[0] <= n.pivots@[j]);
        } else {
            assert(n.children_keys(height, n.len + 1).contains(k));
            let j = choose|j: int|
                0 <= j < n.len + 1 && (#[trigger] n.spec_child(j)).keys(ch).contains(k);
            if j > 0 {
                assert(n.spec_child(j).wf(ch, n.child_lo(j, lo), n.child_hi(j, hi)));
                lemma_keys_in_bounds(n.spec_child(j), ch, n.child_lo(j, lo), n.child_hi(j, hi));
                assert(in_bounds(n.child_lo(j, lo), k, n.child_hi(j, hi)));
                assert(k > n.pivots@[j - 1] as int);
                assert(n.pivots@[0] <= n.pivots@[j - 1]);
            }
        }
    }
}

/// The greatest key of the rightmost child is the greatest key of the node.
proof fn lemma_max_through_child(n: Node, height: nat, lo: Option<int>, hi: Option<int>, v: int)
    requires
        height > 0,
        n.wf(height, lo, hi),
        n.len >= 1,
        is_max_key(v, n.spec_child(n.len as int).keys((height - 1) as nat)),
    ensures
        is_max_key(v, n.keys(height)),
{
    let ch = (height - 1) as nat;
    let last = n.len as int;
    lemma_children_keys_member(n, height, n.len + 1);
    assert(n.spec_child(last).wf(ch, n.child_lo(last, lo), n.child_hi(last, hi)));
    lemma_keys_in_bounds(n.spec_child(last), ch, n.child_lo(last, lo), n.child_hi(last, hi));
    assert(n.spec_child(last).keys(ch).contains(v));
    assert(in_bounds(n.child_lo(last, lo), v, n.child_hi(last, hi)));
    assert(v > n.pivots@[n.len - 1] as int);
    assert(n.children_keys(height, n.len + 1).contains(v));
    assert forall|k: int| n.keys(height).contains(k) implies k <= v by {
        if seq_key_set(n.pivots@).contains(k) {
            let j = choose|j: int| 0 <= j < n.pivots@.len() && n.pivots@[j] as int == k;
            assert(n.pivots@[j] <= n.pivots@[n.len - 1]);
        } else {
            assert(n.children_keys(height, n.len + 1).contains(k));
            let j = choose|j: int|
                0 <= j < n.len + 1 && (#[trigger] n.spec_child(j)).keys(ch).contains(k);
            if j < last {
                assert(n.spec_child(j).wf(ch, n.child_lo(j, lo), n.child_hi(j, hi)));
                lemma_keys_in_bounds(n.spec_child(j), ch, n.child_lo(j, lo), n.child_hi(j, hi));
                assert(in_bounds(n.child_lo(j, lo), k, n.child_hi(j, hi)));
                assert(k < n.pivots@[j] as int);
                assert(n.pivots@[j] <= n.pivots@[n.len - 1]);
            }
        }
    }
}


impl Node {
    /// Remove the probed key from the subtree. On an exact match at an
    /// internal node, the in-order predecessor is pulled out of the left
    /// subtree and swapped into the pivot's place. Returns `None` exactly
    /// when a probed key is absent; otherwise the removed value, marked
    /// `Underflow` when this node has dropped below `M / 2` pivots.
    #[verifier::rlimit(100)]
    pub(crate) fn remove(
        &mut self,
        height: usize,
        probe: &Probe,
        Ghost(lo): Ghost<Option<int>>,
        Ghost(hi): Ghost<Option<int>>,
    ) -> (r: Option<RemoveResult>)
        requires
            old(self).wf(height as nat, lo, hi),
            old(self).len >= 1,
        ensures
            match r {
                None => {
                    &&& final(self).wf(height as nat, lo, hi)
                    &&& final(self).keys(height as nat) == old(self).keys(height as nat)
                    &&& final(self).len == old(self).len
                    &&& (*probe matches Probe::Key(k) && !old(self).keys(height as nat).contains(
                        k as int,
                    ))
                },
                Some(res) => {
                    &&& final(self).wf(height as nat, lo, hi)
                    &&& old(self).keys(height as nat).contains(res.value() as int)
                    &&& final(self).keys(height as nat) == old(self).keys(height as nat).remove(
                        res.value() as int,
                    )
                    &&& probe_selects(*probe, res.value() as int, old(self).keys(height as nat))
                    &&& (res is Done <==> final(self).len >= M / 2)
                    &&& (res is Underflow ==> final(self).len == M / 2 - 1)
                    &&& final(self).len <= old(self).len
                },
            },
        decreases height,
    {
        let ghost h = height as nat;
        let ghost ch = (height - 1) as nat;
        let ghost po = *old(self);
        let len = self.len;

        if height == 0 {
            let index = match probe.binary_search(&self.pivots, len, height) {
                Err(_) => {
                    proof {
                        if let Probe::Key(k) = *probe {
                            if po.keys(h).contains(k as int) {
                                let j = choose|j: int|
                                    0 <= j < po.pivots@.len() && po.pivots@[j] as int == k as int;
                                assert(false);
                            }
                        }
                    }
                    return None;
                },
                Ok(i) => i,
            };
            let v = self.pivots.remove(len, index);
            self.len = len - 1;
            proof {
                lemma_sks_remove(po.pivots@, index as int);
                po.lemma_pivot_in_keys(h, index as int);
                match *probe {
                    Probe::Key(_) => {},
                    Probe::First => {
                        assert forall|k: int| po.keys(h).contains(k) implies v as int <= k by {
                            let j = choose|j: int|
                                0 <= j < po.pivots@.len() && po.pivots@[j] as int == k;
                            assert(po.pivots@[0] <= po.pivots@[j]);
                        }
                    },
                    Probe::Last => {
                        assert forall|k: int| po.keys(h).contains(k) implies k <= v as int by {
                            let j = choose|j: int|
                                0 <= j < po.pivots@.len() && po.pivots@[j] as int == k;
                            assert(po.pivots@[j] <= po.pivots@[po.len - 1]);
                        }
                    },
                }
                assert(self.keys(h) =~= po.keys(h).remove(v as int));
                assert(self.wf(h, lo, hi));
            }
            return if self.len < M / 2 {
                Some(RemoveResult::Underflow(v))
            } else {
                Some(RemoveResult::Done(v))
            };
        }

        // Internal node: find the branch (or matching) position.
        let (hit, index) = match probe.binary_search(&self.pivots, len, height) {
            Ok(i) => (true, i),
            Err(i) => (false, i),
        };
        let ghost clo = self.child_lo(index as int, lo);
        let ghost chi = self.child_hi(index as int, hi);
        proof {
            assert(po.spec_child(index as int).wf(ch, clo, chi) && po.spec_child(
                index as int,
            ).len >= M / 2);
        }
        let mut child = self.take_child(index);
        let ghost cold = *child;

        let under: bool;
        let v_out: i32;
        if hit {
            // Exact match: pull the in-order predecessor out of the left
            // subtree and swap it into the pivot's place.
            let r2 = (&mut *child).remove(height - 1, &Probe::Last, Ghost(clo), Ghost(chi));
            let res2 = match r2 {
                Some(res2) => res2,
                None => {
                    proof {
                        assert(false);
                    }
                    return None;
                },
            };
            let pred = match &res2 {
                RemoveResult::Done(p) => *p,
                RemoveResult::Underflow(p) => *p,
            };
            under = match &res2 {
                RemoveResult::Underflow(_) => true,
                RemoveResult::Done(_) => false,
            };
            proof {
                assert(is_max_key(pred as int, cold.keys(ch)));
                assert forall|k: int| (*child).keys(ch).contains(k) implies k < pred as int by {
                    assert(cold.keys(ch).remove(pred as int).contains(k));
                }
                lemma_wf_tighten_hi(*child, ch, clo, chi, pred as int);
            }
            let vv = self.pivots.replace(len, index, pred);
            v_out = vv;
            let ghost cfin = *child;
            self.put_child(index, child);
            proof {
                let sf = *self;
                assert(sf.children.tail@.len() == po.children.tail@.len());
                assert forall|t: int|
                    0 <= t < po.children.tail@.len() && t != index - 1 implies sf.children.tail@[t]
                    == po.children.tail@[t] by {}
                assert(sf.spec_child(index as int) == cfin);
                assert forall|j: int| 0 <= j <= sf.len && j != index implies #[trigger] sf
                    .spec_child(j) == po.spec_child(j) by {}
                assert(sf.pivots@ == po.pivots@.update(index as int, pred));
                // The probe hit a pivot, so it is the key probe.
                match *probe {
                    Probe::Key(k) => {
                        assert(v_out == k);
                    },
                    Probe::First => {
                        assert(false);
                    },
                    Probe::Last => {
                        assert(false);
                    },
                }
                po.lemma_pivot_in_keys(h, index as int);
                assert(cold.keys(ch).contains(pred as int));
                assert(cfin.keys(ch) == cold.keys(ch).remove(pred as int));
                lemma_pivot_swap_keys(po, sf, h, index as int, pred, lo, hi);
                assert(sf.keys(h) =~= po.keys(h).remove(v_out as int));
                // Well-formedness: the predecessor sits strictly between the
                // pivots around position `index`.
                assert(po.spec_child(index as int).wf(ch, clo, chi));
                lemma_keys_in_bounds(po.spec_child(index as int), ch, clo, chi);
                assert(in_bounds(clo, pred as int, chi));
                assert((pred as int) < po.pivots@[index as int] as int);
                assert forall|a: int, b: int| 0 <= a < b < sf.pivots@.len() implies sf.pivots@[a]
                    < sf.pivots@[b] by {
                    if a != index && b != index {
                        assert(po.pivots@[a] < po.pivots@[b]);
                    }
                }
                assert forall|i: int| 0 <= i < sf.len implies in_bounds(
                    lo,
                    #[trigger] sf.pivots@[i] as int,
                    hi,
                ) by {
                    if i != index {
                        assert(in_bounds(lo, po.pivots@[i] as int, hi));
                    } else {
                        assert(in_bounds(lo, po.pivots@[index as int] as int, hi));
                    }
                }
                assert forall|j: int| 0 <= j <= sf.len implies (#[trigger] sf.spec_child(j)).wf(
                    ch,
                    sf.child_lo(j, lo),
                    sf.child_hi(j, hi),
                ) by {
                    if j == index {
                        assert(cfin.wf(ch, clo, Some(pred as int)));
                    } else if j == index + 1 {
                        assert(po.spec_child(j).wf(ch, po.child_lo(j, lo), po.child_hi(j, hi)));
                        lemma_wf_widen(
                            po.spec_child(j),
                            ch,
                            po.child_lo(j, lo),
                            po.child_hi(j, hi),
                            sf.child_lo(j, lo),
                            sf.child_hi(j, hi),
                        );
                    } else {
                        assert(po.spec_child(j).wf(ch, po.child_lo(j, lo), po.child_hi(j, hi)));
                    }
                }
                assert forall|j: int| 0 <= j <= sf.len && j != index implies (#[trigger] sf
                    .spec_child(j)).len >= M / 2 by {}
            }
        } else {
            // Miss: descend into the branch child with the same probe.
            let r2 = (&mut *child).remove(height - 1, probe, Ghost(clo), Ghost(chi));
            match r2 {
                None => {
                    let ghost cfin = *child;
                    self.put_child(index, child);
                    proof {
                        let sf = *self;
                        assert(sf.children.tail@.len() == po.children.tail@.len());
                        assert forall|t: int|
                            0 <= t < po.children.tail@.len() && t != index - 1 implies
                            sf.children.tail@[t] == po.children.tail@[t] by {}
                        assert(sf.spec_child(index as int) == cfin);
                        assert forall|j: int| 0 <= j <= sf.len && j != index implies #[trigger] sf
                            .spec_child(j) == po.spec_child(j) by {}
                        assert forall|j: int| 0 <= j <= sf.len implies (#[trigger] sf.spec_child(
                            j,
                        )).wf(ch, sf.child_lo(j, lo), sf.child_hi(j, hi)) && sf.spec_child(j).len
                            >= M / 2 by {
                            if j != index {
                                assert(po.spec_child(j).wf(
                                    ch,
                                    po.child_lo(j, lo),
                                    po.child_hi(j, hi),
                                ));
                            }
                        }
                        assert(sf.wf(h, lo, hi));
                        lemma_children_keys_except(po, h, po.len + 1, index as int);
                        lemma_children_keys_except(sf, h, sf.len + 1, index as int);
                        lemma_children_keys_except_pointwise(po, sf, h, po.len + 1, index as int);
                        assert(sf.keys(h) =~= po.keys(h));
                        if let Probe::Key(k) = *probe {
                            po.lemma_key_only_in_child(h, lo, hi, index as int, k as int);
                        }
                    }
                    return None;
                },
                Some(res2) => {
                    v_out = match &res2 {
                        RemoveResult::Done(p) => *p,
                        RemoveResult::Underflow(p) => *p,
                    };
                    under = match &res2 {
                        RemoveResult::Underflow(_) => true,
                        RemoveResult::Done(_) => false,
                    };
                    let ghost cfin = *child;
                    self.put_child(index, child);
                    proof {
                        let sf = *self;
                        assert(sf.children.tail@.len() == po.children.tail@.len());
                        assert forall|t: int|
                            0 <= t < po.children.tail@.len() && t != index - 1 implies
                            sf.children.tail@[t] == po.children.tail@[t] by {}
                        assert(sf.spec_child(index as int) == cfin);
                        assert forall|j: int| 0 <= j <= sf.len && j != index implies #[trigger] sf
                            .spec_child(j) == po.spec_child(j) by {}
                        assert(sf.pivots@ == po.pivots@);
                        assert(cold.keys(ch).contains(v_out as int));
                        assert(cfin.keys(ch) == cold.keys(ch).remove(v_out as int));
                        lemma_child_shrunk_keys(po, sf, h, index as int, v_out as int, lo, hi);
                        assert(sf.keys(h) =~= po.keys(h).remove(v_out as int));
                        po.lemma_child_keys_in_keys(h, index as int);
                        assert(po.keys(h).contains(v_out as int));
                        match *probe {
                            Probe::Key(_) => {},
                            Probe::First => {
                                assert(index == 0);
                                lemma_min_through_child(po, h, lo, hi, v_out as int);
                            },
                            Probe::Last => {
                                assert(index as int == po.len);
                                lemma_max_through_child(po, h, lo, hi, v_out as int);
                            },
                        }
                        assert forall|j: int| 0 <= j <= sf.len implies (#[trigger] sf.spec_child(
                            j,
                        )).wf(ch, sf.child_lo(j, lo), sf.child_hi(j, hi)) by {
                            if j != index {
                                assert(po.spec_child(j).wf(
                                    ch,
                                    po.child_lo(j, lo),
                                    po.child_hi(j, hi),
                                ));
                            }
                        }
                        assert forall|j: int| 0 <= j <= sf.len && j != index implies (#[trigger] sf
                            .spec_child(j)).len >= M / 2 by {}
                    }
                },
            }
        }

        // The child is back in place; repair it if it underflowed.
        if under {
            proof {
                assert(self.wf_except(h, lo, hi, index as int));
            }
            self.repair_underflow(index, height, Ghost(lo), Ghost(hi));
            if self.len < M / 2 {
                Some(RemoveResult::Underflow(v_out))
            } else {
                Some(RemoveResult::Done(v_out))
            }
        } else {
            proof {
                assert(self.wf(h, lo, hi));
            }
            Some(RemoveResult::Done(v_out))
        }
    }
}


/// A pivot sequence stores finitely many keys, at most one per pivot.
proof fn lemma_sks_finite(s: Seq<i32>)
    ensures
        seq_key_set(s).finite(),
        seq_key_set(s).len() <= s.len(),
    decreases s.len(),
{
    if s.len() == 0 {
        lemma_sks_empty(s);
    } else {
        let d = s.drop_last();
        lemma_sks_finite(d);
        assert(s =~= d.insert(d.len() as int, s.last()));
        lemma_sks_insert(d, d.len() as int, s.last());
    }
}

/// The keys of a well-formed subtree form a finite set.
pub(crate) proof fn lemma_keys_finite(n: Node, height: nat, lo: Option<int>, hi: Option<int>)
    requires
        n.wf(height, lo, hi),
    ensures
        n.keys(height).finite(),
    decreases height, 1int, 0int,
{
    lemma_sks_finite(n.pivots@);
    if height > 0 {
        lemma_children_keys_finite(n, height, n.len + 1, lo, hi);
    }
}

/// The keys of the first `count` children form a finite set.
proof fn lemma_children_keys_finite(
    n: Node,
    height: nat,
    count: int,
    lo: Option<int>,
    hi: Option<int>,
)
    requires
        n.wf(height, lo, hi),
        height > 0,
        count <= n.len + 1,
    ensures
        n.children_keys(height, count).finite(),
    decreases height, 0int, count,
{
    if count > 0 {
        lemma_children_keys_finite(n, height, count - 1, lo, hi);
        assert(n.spec_child(count - 1).wf(
            (height - 1) as nat,
            n.child_lo(count - 1, lo),
            n.child_hi(count - 1, hi),
        ));
        lemma_keys_finite(
            n.spec_child(count - 1),
            (height - 1) as nat,
            n.child_lo(count - 1, lo),
            n.child_hi(count - 1, hi),
        );
    }
}

/// A non-empty well-formed subtree of height `h` stores at least `2^h` keys:
/// balanced trees over a finite key type are shallow.
pub(crate) proof fn lemma_min_card(n: Node, height: nat, lo: Option<int>, hi: Option<int>)
    requires
        n.wf(height, lo, hi),
        n.len >= 1,
    ensures
        n.keys(height).finite(),
        n.keys(height).len() >= vstd::arithmetic::power2::pow2(height),
    decreases height,
{
    lemma_keys_finite(n, height, lo, hi);
    n.lemma_pivot_in_keys(height, 0);
    if height == 0 {
        vstd::arithmetic::power2::lemma2_to64();
        if n.keys(0).len() == 0 {
            n.keys(0).lemma_len0_is_empty();
        }
    } else {
        let ch = (height - 1) as nat;
        let p0 = n.pivots@[0] as int;
        let c0 = n.spec_child(0);
        let c1 = n.spec_child(1);
        let lo0 = n.child_lo(0, lo);
        let hi0 = n.child_hi(0, hi);
        let lo1 = n.child_lo(1, lo);
        let hi1 = n.child_hi(1, hi);
        assert(c0.wf(ch, lo0, hi0) && c0.len >= M / 2);
        assert(c1.wf(ch, lo1, hi1) && c1.len >= M / 2);
        lemma_min_card(c0, ch, lo0, hi0);
        lemma_min_card(c1, ch, lo1, hi1);
        lemma_keys_in_bounds(c0, ch, lo0, hi0);
        lemma_keys_in_bounds(c1, ch, lo1, hi1);
        assert(c0.keys(ch).disjoint(c1.keys(ch))) by {
            assert forall|k: int| c0.keys(ch).contains(k) implies !c1.keys(ch).contains(k) by {
                assert(in_bounds(lo0, k, hi0));
                assert(k < p0);
                if c1.keys(ch).contains(k) {
                    assert(in_bounds(lo1, k, hi1));
                    assert(false);
                }
            }
        }
        vstd::set_lib::lemma_set_disjoint_lens(c0.keys(ch), c1.keys(ch));
        let u = c0.keys(ch) + c1.keys(ch);
        assert(u.len() >= vstd::arithmetic::power2::pow2(ch) + vstd::arithmetic::power2::pow2(ch));
        assert(!u.contains(p0)) by {
            if c0.keys(ch).contains(p0) {
                assert(in_bounds(lo0, p0, hi0));
            }
            if c1.keys(ch).contains(p0) {
                assert(in_bounds(lo1, p0, hi1));
            }
        }
        let w = u.insert(p0);
        assert(w.len() == u.len() + 1);
        assert(w.subset_of(n.keys(height))) by {
            n.lemma_child_keys_in_keys(height, 0);
            n.lemma_child_keys_in_keys(height, 1);
        }
        vstd::set_lib::lemma_len_subset(w, n.keys(height));
        vstd::arithmetic::power2::lemma_pow2_unfold(height);
    }
}

/// Every key of a subtree is the value of some `i32`.
proof fn lemma_keys_i32(n: Node, height: nat)
    ensures
        forall|k: int| n.keys(height).contains(k) ==> i32::MIN <= k <= i32::MAX,
    decreases height,
{
    if height > 0 {
        lemma_children_keys_member(n, height, n.len + 1);
        assert forall|k: int| n.keys(height).contains(k) implies i32::MIN <= k <= i32::MAX by {
            if seq_key_set(n.pivots@).contains(k) {
                let j = choose|j: int| 0 <= j < n.pivots@.len() && n.pivots@[j] as int == k;
            } else {
                assert(n.children_keys(height, n.len + 1).contains(k));
                let j = choose|j: int|
                    0 <= j < n.len + 1 && (#[trigger] n.spec_child(j)).keys(
                        (height - 1) as nat,
                    ).contains(k);
                lemma_keys_i32(n.spec_child(j), (height - 1) as nat);
                assert(n.spec_child(j).keys((height - 1) as nat).contains(k));
            }
        }
    } else {
        assert forall|k: int| n.keys(height).contains(k) implies i32::MIN <= k <= i32::MAX by {
            let j = choose|j: int| 0 <= j < n.pivots@.len() && n.pivots@[j] as int == k;
        }
    }
}

/// A non-empty well-formed subtree over `i32` keys has height at most 32.
pub(crate) proof fn lemma_height_bound(n: Node, height: nat, lo: Option<int>, hi: Option<int>)
    requires
        n.wf(height, lo, hi),
        n.len >= 1,
    ensures
        height <= 32,
{
    lemma_min_card(n, height, lo, hi);
    lemma_keys_i32(n, height);
    let range = vstd::set_lib::set_int_range(i32::MIN as int, i32::MAX as int + 1);
    vstd::set_lib::lemma_int_range(i32::MIN as int, i32::MAX as int + 1);
    assert(n.keys(height).subset_of(range));
    vstd::set_lib::lemma_len_subset(n.keys(height), range);
    assert(range.len() == 0x1_0000_0000);
    if height > 32 {
        vstd::arithmetic::power2::lemma_pow2_strictly_increases(32, height);
        vstd::arithmetic::power2::lemma2_to64();
        assert(false);
    }
}


/// A pivot sequence read as mathematical integers.
pub(crate) open spec fn seq_int(s: Seq<i32>) -> Seq<int> {
    s.map_values(|x: i32| x as int)
}

/// Strict ascending order of an integer sequence.
pub open spec fn ascending(s: Seq<int>) -> bool {
    forall|i: int, j: int| 0 <= i < j < s.len() ==> s[i] < s[j]
}

impl Node {
    /// The in-order traversal of the subtree: leftmost child first, then in
    /// turn each pivot followed by the child to its right.
    pub(crate) open spec fn inorder(self, height: nat) -> Seq<int>
        decreases height, 1int, 0int,
    {
        if height == 0 {
            seq_int(self.pivots@)
        } else {
            self.inorder_upto(height, self.len + 1)
        }
    }

    /// The traversal of the first `count` children, with the separating
    /// pivots between them.
    pub(crate) open spec fn inorder_upto(self, height: nat, count: int) -> Seq<int>
        decreases height, 0int, count,
    {
        if height == 0 || count <= 0 {
            Seq::empty()
        } else if count == 1 {
            self.spec_child(0).inorder((height - 1) as nat)
        } else {
            self.inorder_upto(height, count - 1) + seq![self.pivots@[count - 2] as int]
                + self.spec_child(count - 1).inorder((height - 1) as nat)
        }
    }
}

/// A well-formed subtree's in-order traversal is strictly ascending, stays
/// inside the subtree's bounds, and enumerates exactly the subtree's keys.
pub(crate) proof fn lemma_inorder_props(n: Node, height: nat, lo: Option<int>, hi: Option<int>)
    requires
        n.wf(height, lo, hi),
    ensures
        ascending(n.inorder(height)),
        n.inorder(height).to_set() =~= n.keys(height),
        forall|t: int|
            0 <= t < n.inorder(height).len() ==> in_bounds(lo, #[trigger] n.inorder(height)[t], hi),
    decreases height, 1int, 0int,
{
    if height == 0 {
        let o = n.inorder(0);
        assert forall|k: int| o.to_set().contains(k) implies n.keys(0).contains(k) by {
            let t = choose|t: int| 0 <= t < o.len() && o[t] == k;
            assert(n.pivots@[t] as int == k);
        }
        assert forall|k: int| n.keys(0).contains(k) implies o.to_set().contains(k) by {
            let t = choose|t: int| 0 <= t < n.pivots@.len() && n.pivots@[t] as int == k;
            assert(o[t] == k);
        }
    } else {
        lemma_inorder_upto_props(n, height, n.len + 1, lo, hi);
        assert(n.pivots@.subrange(0, n.len as int) =~= n.pivots@);
    }
}

/// Helper for [`lemma_inorder_props`], over a prefix of the children.
proof fn lemma_inorder_upto_props(n: Node, height: nat, count: int, lo: Option<int>, hi: Option<int>)
    requires
        n.wf(height, lo, hi),
        height > 0,
        1 <= count <= n.len + 1,
    ensures
        ascending(n.inorder_upto(height, count)),
        n.inorder_upto(height, count).to_set() =~= n.children_keys(height, count).union(
            seq_key_set(n.pivots@.subrange(0, count - 1)),
        ),
        forall|t: int|
            0 <= t < n.inorder_upto(height, count).len() ==> in_bounds(
                lo,
                #[trigger] n.inorder_upto(height, count)[t],
                n.child_hi(count - 1, hi),
            ),
    decreases height, 0int, count,
{
    let ch = (height - 1) as nat;
    if count == 1 {
        assert(n.spec_child(0).wf(ch, n.child_lo(0, lo), n.child_hi(0, hi)));
        lemma_inorder_props(n.spec_child(0), ch, lo, n.child_hi(0, hi));
        lemma_sks_empty(n.pivots@.subrange(0, 0));
        assert(n.children_keys(height, 0) == Set::<int>::empty());
        assert(n.inorder_upto(height, 1).to_set() =~= n.children_keys(height, 1).union(
            seq_key_set(n.pivots@.subrange(0, 0)),
        ));
    } else {
        lemma_inorder_upto_props(n, height, count - 1, lo, hi);
        let p = n.pivots@[count - 2] as int;
        let a = n.inorder_upto(height, count - 1);
        let c = n.spec_child(count - 1);
        assert(c.wf(ch, n.child_lo(count - 1, lo), n.child_hi(count - 1, hi)));
        lemma_inorder_props(c, ch, Some(p), n.child_hi(count - 1, hi));
        let b = c.inorder(ch);
        let o = a + seq![p] + b;
        assert(n.inorder_upto(height, count) == o);

        // The prefix lies below `p`, the new child above it.
        assert(in_bounds(lo, p, hi));
        assert forall|i: int, j: int| 0 <= i < j < o.len() implies o[i] < o[j] by {
            let al = a.len() as int;
            if j < al {
            } else if i < al && j == al {
                assert(o[i] == a[i]);
                assert(in_bounds(lo, a[i], n.child_hi(count - 2, hi)));
            } else if i < al {
                assert(o[i] == a[i] && o[j] == b[j - al - 1]);
                assert(in_bounds(lo, a[i], n.child_hi(count - 2, hi)));
                assert(in_bounds(Some(p), b[j - al - 1], n.child_hi(count - 1, hi)));
            } else if i == al {
                assert(o[j] == b[j - al - 1]);
                assert(in_bounds(Some(p), b[j - al - 1], n.child_hi(count - 1, hi)));
            } else {
                assert(o[i] == b[i - al - 1] && o[j] == b[j - al - 1]);
            }
        }

        // Element bounds for the longer prefix.
        assert forall|t: int| 0 <= t < o.len() implies in_bounds(
            lo,
            #[trigger] o[t],
            n.child_hi(count - 1, hi),
        ) by {
            let al = a.len() as int;
            if t < al {
                assert(o[t] == a[t]);
                assert(in_bounds(lo, a[t], n.child_hi(count - 2, hi)));
                if count - 1 < n.len {
                    assert((n.pivots@[count - 2] as int) < n.pivots@[count - 1] as int);
                }
            } else if t == al {
                assert(o[t] == p);
                if count - 1 < n.len {
                    assert((n.pivots@[count - 2] as int) < n.pivots@[count - 1] as int);
                }
            } else {
                assert(o[t] == b[t - al - 1]);
                assert(in_bounds(Some(p), b[t - al - 1], n.child_hi(count - 1, hi)));
            }
        }

        // The traversed keys so far.
        assert(n.pivots@.subrange(0, count - 1) =~= n.pivots@.subrange(0, count - 2).insert(
            count - 2,
            n.pivots@[count - 2],
        ));
        lemma_sks_insert(n.pivots@.subrange(0, count - 2), count - 2, n.pivots@[count - 2]);
        assert forall|k: int| o.to_set().contains(k) implies n.children_keys(height, count).union(
            seq_key_set(n.pivots@.subrange(0, count - 1)),
        ).contains(k) by {
            let al = a.len() as int;
            let t = choose|t: int| 0 <= t < o.len() && o[t] == k;
            if t < al {
                assert(a.to_set().contains(k));
            } else if t == al {
            } else {
                assert(b[t - al - 1] == k);
                assert(b.to_set().contains(k));
            }
        }
        assert forall|k: int| n.children_keys(height, count).union(
            seq_key_set(n.pivots@.subrange(0, count - 1)),
        ).contains(k) implies o.to_set().contains(k) by {
            let al = a.len() as int;
            if n.children_keys(height, count - 1).contains(k) || seq_key_set(
                n.pivots@.subrange(0, count - 2),
            ).contains(k) {
                assert(a.to_set().contains(k));
                let t = choose|t: int| 0 <= t < a.len() && a[t] == k;
                assert(o[t] == k);
            } else if k == p {
                assert(o[al] == k);
            } else {
                assert(c.keys(ch).contains(k));
                assert(b.to_set().contains(k));
                let t = choose|t: int| 0 <= t < b.len() && b[t] == k;
                assert(o[t + al + 1] == k);
            }
        }
    }
}

/// Every leaf of the subtree lies exactly `d` levels down.
pub(crate) open spec fn all_leaves_at(n: Node, d: nat) -> bool
    decreases d,
{
    if d == 0 {
        n.children.head is None && n.children.tail@.len() == 0
    } else {
        &&& n.children.head is Some
        &&& n.children.tail@.len() == n.len
        &&& forall|i: int|
            0 <= i <= n.len ==> all_leaves_at(#[trigger] n.spec_child(i), (d - 1) as nat)
    }
}

/// Every node strictly below this one holds between `M / 2` and `M` pivots.
pub(crate) open spec fn subnodes_bounded(n: Node, height: nat) -> bool
    decreases height,
{
    height > 0 ==> forall|i: int|
        0 <= i <= n.len ==> M / 2 <= (#[trigger] n.spec_child(i)).len <= M && subnodes_bounded(
            n.spec_child(i),
            (height - 1) as nat,
        )
}

/// Every internal node of the subtree has exactly `len + 1` children: one in
/// `head` and `len` in the tail.
pub(crate) open spec fn children_consistent(n: Node, height: nat) -> bool
    decreases height,
{
    height > 0 ==> {
        &&& n.children.head is Some
        &&& n.children.tail@.len() == n.len
        &&& forall|i: int|
            0 <= i <= n.len ==> children_consistent(#[trigger] n.spec_child(i), (height - 1) as nat)
    }
}

/// A well-formed subtree is balanced, has bounded fanout below the root, and
/// pairs `len` pivots with `len + 1` children at every internal node.
pub(crate) proof fn lemma_wf_structure(n: Node, height: nat, lo: Option<int>, hi: Option<int>)
    requires
        n.wf(height, lo, hi),
    ensures
        all_leaves_at(n, height),
        subnodes_bounded(n, height),
        children_consistent(n, height),
    decreases height,
{
    if height > 0 {
        assert forall|i: int| 0 <= i <= n.len implies all_leaves_at(
            #[trigger] n.spec_child(i),
            (height - 1) as nat,
        ) && (M / 2 <= n.spec_child(i).len <= M && subnodes_bounded(
            n.spec_child(i),
            (height - 1) as nat,
        )) && children_consistent(n.spec_child(i), (height - 1) as nat) by {
            assert(n.spec_child(i).wf((height - 1) as nat, n.child_lo(i, lo), n.child_hi(i, hi)));
            lemma_wf_structure(
                n.spec_child(i),
                (height - 1) as nat,
                n.child_lo(i, lo),
                n.child_hi(i, hi),
            );
        }
    }
}

} // verus!
