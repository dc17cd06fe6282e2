//! An unbalanced binary search tree over `u64` values.
//!
//! The tree stores each value at most once, supports insertion and
//! membership lookup, and reports its depth in levels.  No balancing is
//! performed, so the shape (and therefore the depth) depends on the order
//! in which values arrive.

use vstd::prelude::*;

verus! {

/// One vertex of the tree: a value and two optional subtrees.
pub struct Leaf {
    val: u64,
    left: Option<Box<Leaf>>,
    right: Option<Box<Leaf>>,
}

/// The public handle: owns an optional root vertex.
pub struct Tree {
    root: Option<Box<Leaf>>,
}

/// The set of values stored in an optional subtree.
pub closed spec fn slot_set(slot: Option<Box<Leaf>>) -> Set<u64>
    decreases slot,
{
    match slot {
        None => Set::empty(),
        Some(leaf) => leaf.as_set(),
    }
}

/// Whether an optional subtree satisfies the ordering invariant.
pub closed spec fn slot_wf(slot: Option<Box<Leaf>>) -> bool
    decreases slot,
{
    match slot {
        None => true,
        Some(leaf) => leaf.wf(),
    }
}

/// Depth in levels of an optional subtree: an absent subtree has depth 0.
pub closed spec fn slot_depth(slot: Option<Box<Leaf>>) -> nat
    decreases slot,
{
    match slot {
        None => 0,
        Some(leaf) => leaf.depth(),
    }
}

/// Whether an optional subtree is a right-leaning chain: no vertex in it
/// has a left child.
pub closed spec fn slot_chain(slot: Option<Box<Leaf>>) -> bool
    decreases slot,
{
    match slot {
        None => true,
        Some(leaf) => leaf.chain(),
    }
}

/// The values of an optional subtree, listed in symmetric (in-order) order.
pub closed spec fn slot_in_order(slot: Option<Box<Leaf>>) -> Seq<u64>
    decreases slot,
{
    match slot {
        None => Seq::empty(),
        Some(leaf) => leaf.in_order(),
    }
}

impl Leaf {
    /// The set of values stored in the subtree rooted here.
    pub closed spec fn as_set(self) -> Set<u64>
        decreases self,
    {
        slot_set(self.left).union(slot_set(self.right)).insert(self.val)
    }

    /// The ordering invariant: everything to the left is strictly smaller,
    /// everything to the right strictly greater, recursively.
    pub closed spec fn wf(self) -> bool
        decreases self,
    {
        &&& forall|x: u64| slot_set(self.left).contains(x) ==> x < self.val
        &&& forall|x: u64| slot_set(self.right).contains(x) ==> x > self.val
        &&& slot_wf(self.left)
        &&& slot_wf(self.right)
    }

    /// Depth in levels of the subtree rooted here: a lone vertex has depth 1.
    pub closed spec fn depth(self) -> nat
        decreases self,
    {
        1 + if slot_depth(self.left) >= slot_depth(self.right) {
            slot_depth(self.left)
        } else {
            slot_depth(self.right)
        }
    }

    /// Whether the subtree rooted here is a right-leaning chain.
    pub closed spec fn chain(self) -> bool
        decreases self,
    {
        self.left is None && slot_chain(self.right)
    }

    /// The values of the subtree rooted here, in symmetric order.
    pub closed spec fn in_order(self) -> Seq<u64>
        decreases self,
    {
        slot_in_order(self.left) + seq![self.val] + slot_in_order(self.right)
    }
}

impl Tree {
    /// The set of values stored in the whole tree.
    pub closed spec fn as_set(self) -> Set<u64> {
        slot_set(self.root)
    }

    /// The ordering invariant of the whole tree.
    pub closed spec fn wf(self) -> bool {
        slot_wf(self.root)
    }

    /// Depth in levels of the whole tree: the empty tree has depth 0.
    pub closed spec fn depth(self) -> nat {
        slot_depth(self.root)
    }

    /// Whether the whole tree is a right-leaning chain.
    pub closed spec fn chain(self) -> bool {
        slot_chain(self.root)
    }

    /// The values of the whole tree, in symmetric order.
    pub closed spec fn in_order(self) -> Seq<u64> {
        slot_in_order(self.root)
    }
}

/// Whether a sequence is strictly increasing from left to right.
pub open spec fn strictly_increasing(s: Seq<u64>) -> bool {
    forall|i: int, j: int| 0 <= i < j < s.len() ==> s[i] < s[j]
}

impl View for Tree {
    type V = Set<u64>;

    open spec fn view(&self) -> Set<u64> {
        self.as_set()
    }
}

impl Leaf {
    /// Builds a fresh vertex holding `val` and nothing else, already wrapped
    /// for storage in a child slot.
    pub fn new(val: u64) -> (r: Option<Box<Leaf>>)
        ensures
            r is Some,
            slot_set(r) == Set::empty().insert(val),
            slot_wf(r),
            slot_depth(r) == 1,
            slot_chain(r),
    {
        let leaf = Leaf { val, left: None, right: None };
        proof {
            assert(slot_set(leaf.left) =~= Set::<u64>::empty());
            assert(leaf.as_set() =~= Set::empty().insert(val));
            assert(leaf.wf());
            assert(leaf.depth() == 1);
            assert(leaf.chain());
        }
        Some(Box::new(leaf))
    }

    /// Inserts `val` into the subtree rooted here, keeping the ordering
    /// invariant.  Returns true when a new vertex was attached, false when
    /// `val` was already present (the subtree is then left untouched).
    pub fn insert(&mut self, val: u64) -> (r: bool)
        requires
            old(self).wf(),
        ensures
            final(self).wf(),
            final(self).as_set() == old(self).as_set().insert(val),
            final(self).as_set().contains(val),
            r == !old(self).as_set().contains(val),
            !r ==> *final(self) == *old(self),
            old(self).depth() <= final(self).depth() <= old(self).depth() + 1,
            (old(self).chain() && (forall|x: u64| old(self).as_set().contains(x) ==> x < val))
                ==> (final(self).chain() && final(self).depth() == old(self).depth() + 1),
        decreases *old(self),
    {
        proof {
            assert(old(self).as_set().contains(old(self).val));
        }
        if self.val > val {
            let r = match self.left.take() {
                None => {
                    self.left = Leaf::new(val);
                    proof {
                        assert(slot_set(old(self).left) =~= Set::<u64>::empty());
                        assert(slot_set(self.left) =~= slot_set(old(self).left).insert(val));
                    }
                    true
                },
                Some(mut node) => {
                    let inner = node.insert(val);
                    self.left = Some(node);
                    proof {
                        assert(slot_set(self.left) =~= slot_set(old(self).left).insert(val));
                    }
                    inner
                },
            };
            proof {
                assert(!slot_set(old(self).right).contains(val));
                assert(forall|x: u64| #[trigger] slot_set(self.left).contains(x)
                    ==> x < self.val);
                assert(self.wf());
                assert(final(self).as_set() =~= old(self).as_set().insert(val));
                assert(!r ==> *final(self) == *old(self));
            }
            r
        } else if self.val < val {
            let r = match self.right.take() {
                None => {
                    self.right = Leaf::new(val);
                    proof {
                        assert(slot_set(old(self).right) =~= Set::<u64>::empty());
                        assert(slot_set(self.right) =~= slot_set(old(self).right).insert(val));
                        assert(old(self).chain() ==> self.chain());
                        assert(old(self).chain() ==> slot_depth(old(self).left) == 0);
                    }
                    true
                },
                Some(mut node) => {
                    let ghost pre = *node;
                    let inner = node.insert(val);
                    self.right = Some(node);
                    proof {
                        assert(slot_set(self.right) =~= slot_set(old(self).right).insert(val));
                        assert(forall|x: u64| slot_set(old(self).right).contains(x)
                            ==> old(self).as_set().contains(x));
                        if old(self).chain() && (forall|x: u64|
                            old(self).as_set().contains(x) ==> x < val) {
                            assert(pre.chain());
                            assert forall|x: u64| pre.as_set().contains(x) implies x < val by {
                                assert(slot_set(old(self).right).contains(x));
                                assert(old(self).as_set().contains(x));
                            };
                            assert(node.chain() && node.depth() == pre.depth() + 1);
                            assert(self.chain());
                            assert(slot_depth(old(self).left) == 0);
                        }
                    }
                    inner
                },
            };
            proof {
                assert(!slot_set(old(self).left).contains(val));
                assert(forall|x: u64| #[trigger] slot_set(self.right).contains(x)
                    ==> x > self.val);
                assert(self.wf());
                assert(final(self).as_set() =~= old(self).as_set().insert(val));
                assert(!r ==> *final(self) == *old(self));
            }
            r
        } else {
            proof {
                assert(old(self).as_set().contains(val));
                assert(final(self).as_set() =~= old(self).as_set().insert(val));
            }
            false
        }
    }

    /// Reports whether `val` is stored in the subtree rooted here.
    /// Takes the tree by shared reference, so the structure cannot change.
    pub fn contains(&self, val: u64) -> (r: bool)
        requires
            self.wf(),
        ensures
            r == self.as_set().contains(val),
        decreases *self,
    {
        proof {
            assert(self.as_set().contains(self.val));
        }
        if self.val > val {
            proof {
                assert(!slot_set(self.right).contains(val));
            }
            match &self.left {
                Some(node) => node.contains(val),
                None => false,
            }
        } else if self.val < val {
            proof {
                assert(!slot_set(self.left).contains(val));
            }
            match &self.right {
                Some(node) => node.contains(val),
                None => false,
            }
        } else {
            true
        }
    }

    /// Computes the depth in levels of the subtree rooted here: the larger
    /// of the two child contributions, where a present child contributes one
    /// more than its own depth and an absent child contributes one.
    pub fn max_depth(&self) -> (r: usize)
        requires
            self.depth() <= usize::MAX,
        ensures
            r == self.depth(),
        decreases *self,
    {
        let left: usize = match &self.left {
            Some(node) => 1 + node.max_depth(),
            None => 1,
        };
        let right: usize = match &self.right {
            Some(node) => 1 + node.max_depth(),
            None => 1,
        };
        if left < right {
            right
        } else {
            left
        }
    }
}

impl Tree {
    /// Builds an empty tree.
    pub fn new() -> (t: Tree)
        ensures
            t@ == Set::<u64>::empty(),
            t.wf(),
            t.depth() == 0,
            t.chain(),
    {
        Tree { root: None }
    }

    /// Builds a tree already holding the single value `val`.
    pub fn new_with(val: u64) -> (t: Tree)
        ensures
            t@ == Set::empty().insert(val),
            t.wf(),
            t.depth() == 1,
            t.chain(),
    {
        Tree { root: Leaf::new(val) }
    }

    /// Inserts `val` into the tree.  Returns true when the value was new,
    /// false when it was already present (the tree is then left untouched).
    pub fn insert(&mut self, val: u64) -> (r: bool)
        requires
            old(self).wf(),
        ensures
            final(self).wf(),
            final(self)@ == old(self)@.insert(val),
            final(self)@.contains(val),
            r == !old(self)@.contains(val),
            !r ==> *final(self) == *old(self),
            old(self).depth() <= final(self).depth() <= old(self).depth() + 1,
            (old(self).chain() && (forall|x: u64| old(self)@.contains(x) ==> x < val))
                ==> (final(self).chain() && final(self).depth() == old(self).depth() + 1),
    {
        match self.root.take() {
            None => {
                self.root = Leaf::new(val);
                proof {
                    assert(slot_set(old(self).root) =~= Set::<u64>::empty());
                    assert(final(self)@ =~= old(self)@.insert(val));
                }
                true
            },
            Some(mut node) => {
                let ghost pre = *node;
                let r = node.insert(val);
                self.root = Some(node);
                proof {
                    assert(final(self)@ =~= old(self)@.insert(val));
                    if old(self).chain() && (forall|x: u64|
                        old(self)@.contains(x) ==> x < val) {
                        assert(pre.chain());
                        assert(forall|x: u64| pre.as_set().contains(x) ==> x < val);
                        assert(node.chain() && node.depth() == pre.depth() + 1);
                    }
                }
                r
            },
        }
    }

    /// Reports whether `val` is stored in the tree; the empty tree holds
    /// nothing.  Takes the tree by shared reference, so the structure cannot
    /// change.
    pub fn contains(&self, val: u64) -> (r: bool)
        requires
            self.wf(),
        ensures
            r == self@.contains(val),
    {
        match &self.root {
            Some(node) => node.contains(val),
            None => {
                proof {
                    assert(!self@.contains(val));
                }
                false
            },
        }
    }

    /// Computes the depth in levels of the tree: 0 for the empty tree, and
    /// otherwise the depth of the root vertex.
    pub fn max_depth(&self) -> (r: usize)
        requires
            self.depth() <= usize::MAX,
        ensures
            r == self.depth(),
    {
        match &self.root {
            Some(node) => node.max_depth(),
            None => 0,
        }
    }

    /// Builds a tree by inserting every element of `values` in order.
    /// Duplicates are silently dropped, so the result holds exactly the set
    /// of values that occur somewhere in the sequence.
    pub fn build_from_sequence(values: Vec<u64>) -> (t: Tree)
        ensures
            t.wf(),
            t@ == values@.to_set(),
            t.depth() <= values@.len(),
    {
        let mut t = Tree::new();
        proof {
            assert(values@.take(0) =~= Seq::<u64>::empty());
            assert(Seq::<u64>::empty().to_set() =~= Set::<u64>::empty());
        }
        let mut i: usize = 0;
        while i < values.len()
            invariant
                i <= values.len(),
                t.wf(),
                t@ == values@.take(i as int).to_set(),
                t.depth() <= i,
            decreases values.len() - i,
        {
            let v = values[i];
            t.insert(v);
            proof {
                values@.lemma_take_succ_push(i as int);
                values@.take(i as int).lemma_push_to_set_commute(v);
                assert(values@.take(i + 1).to_set() =~= values@.take(i as int).to_set().insert(v));
            }
            i = i + 1;
        }
        proof {
            assert(values@.take(values@.len() as int) =~= values@);
        }
        t
    }
}

proof fn lemma_slot_in_order(slot: Option<Box<Leaf>>)
    requires
        slot_wf(slot),
    ensures
        strictly_increasing(slot_in_order(slot)),
        slot_in_order(slot).to_set() == slot_set(slot),
    decreases slot,
{
    match slot {
        None => {
            assert(slot_in_order(slot) =~= Seq::<u64>::empty());
            assert(Seq::<u64>::empty().to_set() =~= Set::<u64>::empty());
        },
        Some(leaf) => {
            lemma_slot_in_order(leaf.left);
            lemma_slot_in_order(leaf.right);
            let ls = slot_in_order(leaf.left);
            let rs = slot_in_order(leaf.right);
            let v = leaf.val;
            let s = ls + seq![v] + rs;
            assert(leaf.in_order() == s);
            assert(s.len() == ls.len() + 1 + rs.len());
            assert forall|k: int| 0 <= k < s.len() implies s[k] == (if k < ls.len() {
                ls[k]
            } else if k == ls.len() {
                v
            } else {
                rs[k - ls.len() - 1]
            }) by {
                if k < ls.len() + 1 {
                    assert(s[k] == (ls + seq![v])[k]);
                } else {
                    assert(s[k] == rs[k - (ls.len() + 1)]);
                }
            };
            assert forall|k: int| 0 <= k < ls.len() implies ls[k] < v by {
                assert(ls.contains(ls[k]));
                assert(slot_set(leaf.left).contains(ls[k]));
            };
            assert forall|k: int| 0 <= k < rs.len() implies rs[k] > v by {
                assert(rs.contains(rs[k]));
                assert(slot_set(leaf.right).contains(rs[k]));
            };
            assert forall|i: int, j: int| 0 <= i < j < s.len() implies s[i] < s[j] by {
                if j < ls.len() {
                    assert(ls[i] < ls[j]);
                } else if i > ls.len() {
                    assert(rs[i - ls.len() - 1] < rs[j - ls.len() - 1]);
                }
            };
            assert forall|x: u64| s.to_set().contains(x) implies leaf.as_set().contains(x) by {
                let k = choose|k: int| 0 <= k < s.len() && s[k] == x;
                if k < ls.len() {
                    assert(ls.contains(x));
                    assert(slot_set(leaf.left).contains(x));
                } else if k > ls.len() {
                    assert(rs[k - ls.len() - 1] == x);
                    assert(rs.contains(x));
                    assert(slot_set(leaf.right).contains(x));
                }
            };
            assert forall|x: u64| leaf.as_set().contains(x) implies s.to_set().contains(x) by {
                if x == v {
                    assert(s[ls.len() as int] == x);
                    assert(s.contains(x));
                } else if slot_set(leaf.left).contains(x) {
                    assert(ls.contains(x));
                    let k = choose|k: int| 0 <= k < ls.len() && ls[k] == x;
                    assert(s[k] == x);
                    assert(s.contains(x));
                } else {
                    assert(slot_set(leaf.right).contains(x));
                    assert(rs.contains(x));
                    let k = choose|k: int| 0 <= k < rs.len() && rs[k] == x;
                    assert(s[k + ls.len() + 1] == x);
                    assert(s.contains(x));
                }
            };
            assert(s.to_set() =~= leaf.as_set());
        },
    }
}

/// Ordering law: the in-order listing of a well-formed tree is strictly
/// increasing, and it lists exactly the stored values.  Every tree reachable
/// through this interface is well-formed, so this holds of all of them.
pub proof fn lemma_in_order_sorted(t: Tree)
    requires
        t.wf(),
    ensures
        strictly_increasing(t.in_order()),
        t.in_order().to_set() == t@,
{
    lemma_slot_in_order(t.root);
}

proof fn lemma_slot_chain_depth(slot: Option<Box<Leaf>>)
    requires
        slot_wf(slot),
        slot_chain(slot),
    ensures
        slot_set(slot).finite(),
        slot_depth(slot) == slot_set(slot).len(),
    decreases slot,
{
    match slot {
        None => {
        },
        Some(leaf) => {
            lemma_slot_chain_depth(leaf.right);
            assert(slot_set(leaf.left) =~= Set::<u64>::empty());
            assert(leaf.as_set() =~= slot_set(leaf.right).insert(leaf.val));
            assert(!slot_set(leaf.right).contains(leaf.val));
            assert(slot_depth(leaf.left) == 0);
        },
    }
}

/// Degenerate-shape law: a tree that is a right-leaning chain — the shape
/// produced by inserting values in strictly increasing order — is as deep as
/// it is large: its depth equals the number of stored values.
pub proof fn lemma_chain_depth(t: Tree)
    requires
        t.wf(),
        t.chain(),
    ensures
        t@.finite(),
        t.depth() == t@.len(),
{
    lemma_slot_chain_depth(t.root);
}

} // verus!
