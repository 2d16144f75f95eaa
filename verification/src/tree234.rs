//! A 2-3-4 tree: a height-balanced, ordered multiway search tree. Every node
//! holds between 1 and 3 keys (the root may hold 0 when the tree is empty) and,
//! when internal, exactly one child more than it has keys. All leaves sit at
//! the same depth. Duplicate keys are allowed; membership, insertion, deletion
//! and range bracketing all run in time proportional to the height.

use vstd::prelude::*;

verus! {

/// Every element of `s` is at most `b`.
pub open spec fn all_le(s: Seq<usize>, b: usize) -> bool {
    forall|k: int| 0 <= k < s.len() ==> #[trigger] s[k] <= b
}

/// Every element of `s` is at least `b`.
pub open spec fn all_ge(s: Seq<usize>, b: usize) -> bool {
    forall|k: int| 0 <= k < s.len() ==> #[trigger] s[k] >= b
}

/// The contents of an optional subtree: empty when the slot is empty.
pub open spec fn opt_seq(o: Option<Box<Tree234>>) -> Seq<usize> {
    if o is Some {
        (*o->0)@
    } else {
        Seq::<usize>::empty()
    }
}

/// `s` is sorted in non-decreasing order.
pub open spec fn sorted(s: Seq<usize>) -> bool {
    forall|j: int, k: int| 0 <= j < k < s.len() ==> #[trigger] s[j] <= #[trigger] s[k]
}

/// One node of the 2-3-4 tree; the root node stands for the whole tree.
///
/// `data` and `children` always hold exactly 4 slots. The first `size` key
/// slots are occupied, in non-decreasing order; a node is a leaf when its
/// first child slot is empty, and otherwise owns exactly `size + 1` children.
#[derive(Debug, PartialEq, Eq)]
pub struct Tree234 {
    /// The key slots; slots at index `size` and beyond are empty.
    pub data: Vec<Option<usize>>,
    /// The child slots; for an internal node, slots `0 ..= size` are occupied.
    pub children: Vec<Option<Box<Tree234>>>,
    /// The number of occupied key slots, between 0 and 3.
    pub size: usize,
}

impl Tree234 {
    /// A node is a leaf exactly when its first child slot is empty.
    pub open spec fn is_leaf_spec(self) -> bool {
        self.children@[0] is None
    }

    /// The key stored in slot `i`.
    pub open spec fn key_at(self, i: int) -> usize {
        self.data@[i]->0
    }

    /// The subtree stored in child slot `i`.
    pub open spec fn child(self, i: int) -> Tree234 {
        *self.children@[i]->0
    }

    /// Number of levels: 1 for a leaf, one more than the first child otherwise.
    pub open spec fn height(self) -> nat
        decreases self,
    {
        if self.children@.len() == 4 && self.children@[0] is Some {
            1 + (*self.children@[0]->0).height()
        } else {
            1
        }
    }

    /// The slot arrays hold exactly 4 slots each.
    pub open spec fn slots_ok(self) -> bool {
        self.data@.len() == 4 && self.children@.len() == 4
    }

    /// Structural invariant of a node and all its descendants: slot counts,
    /// left-packed occupied slots, keys in non-decreasing order, children
    /// separated by the keys between them, and all children of equal height.
    pub open spec fn wf(self) -> bool
        decreases self,
    {
        &&& self.slots_ok()
        &&& self.size <= 3
        &&& (forall|j: int| 0 <= j < self.size ==> (#[trigger] self.data@[j]) is Some)
        &&& (forall|j: int| self.size <= j < 4 ==> (#[trigger] self.data@[j]) is None)
        &&& (forall|j: int, k: int|
            0 <= j < k < self.size ==> self.key_at(j) <= self.key_at(k))
        &&& if self.is_leaf_spec() {
            forall|j: int| 0 <= j < 4 ==> (#[trigger] self.children@[j]) is None
        } else {
            &&& 1 <= self.size
            &&& (forall|j: int| 0 <= j <= self.size ==> (#[trigger] self.children@[j]) is Some)
            &&& (forall|j: int|
                self.size < j < 4 ==> (#[trigger] self.children@[j]) is None)
            &&& (forall|j: int|
                0 <= j <= self.size ==> (#[trigger] (*self.children@[j]->0)).wf())
            &&& (forall|j: int|
                0 <= j <= self.size ==> (#[trigger] self.child(j)).size >= 1)
            &&& (forall|j: int|
                0 <= j <= self.size ==> (#[trigger] self.child(j)).height()
                    == self.child(0).height())
            &&& (forall|j: int|
                0 <= j < self.size ==> all_le((#[trigger] self.child(j))@, self.key_at(j)))
            &&& (forall|j: int|
                1 <= j <= self.size ==> all_ge((#[trigger] self.child(j))@, self.key_at(j - 1)))
        }
    }

    /// The in-order contents of the suffix of this node that starts at key
    /// slot `i`: child `i`, key `i`, child `i + 1`, ..., key `size - 1`,
    /// child `size`.
    pub open spec fn seq_from(self, i: int) -> Seq<usize>
        decreases self, self.size - i + 1,
    {
        if !(self.slots_ok() && self.size <= 3 && 0 <= i <= self.size) {
            Seq::empty()
        } else {
            let here = if self.children@[i] is Some {
                (*self.children@[i]->0).seq_from(0)
            } else {
                Seq::<usize>::empty()
            };
            if i == self.size {
                here
            } else {
                here + seq![self.key_at(i)] + self.seq_from(i + 1)
            }
        }
    }
}

impl Tree234 {
    /// Shape of the slot arrays alone: sizes in range and, for an internal
    /// node, child slots `0 ..= size` occupied.
    pub open spec fn node_shape(self) -> bool {
        &&& self.slots_ok()
        &&& self.size <= 3
        &&& (!self.is_leaf_spec() ==> 1 <= self.size && (forall|j: int|
            0 <= j <= self.size ==> (#[trigger] self.children@[j]) is Some))
    }

    /// The in-order contents that precede child `p`:
    /// child 0, key 0, ..., child `p - 1`, key `p - 1`.
    pub open spec fn pre_at(self, p: int) -> Seq<usize>
        decreases p,
    {
        if p <= 0 {
            Seq::empty()
        } else {
            self.pre_at(p - 1) + self.child(p - 1)@ + seq![self.key_at(p - 1)]
        }
    }

    /// The in-order contents that follow child `p`:
    /// key `p`, child `p + 1`, ..., key `size - 1`, child `size`.
    pub open spec fn post_at(self, p: int) -> Seq<usize> {
        if 0 <= p < self.size {
            seq![self.key_at(p)] + self.seq_from(p + 1)
        } else {
            Seq::empty()
        }
    }

    /// An internal node's contents split around any one child.
    proof fn lemma_decompose(self, p: int)
        requires
            self.node_shape(),
            !self.is_leaf_spec(),
            0 <= p <= self.size,
        ensures
            self@ =~= self.pre_at(p) + self.child(p)@ + self.post_at(p),
        decreases p,
    {
        if p == 0 {
            assert(self@ =~= self.child(0)@ + self.post_at(0));
        } else {
            self.lemma_decompose(p - 1);
            assert(self.seq_from(p) =~= self.child(p)@ + self.post_at(p));
            assert(self.post_at(p - 1) =~= seq![self.key_at(p - 1)] + self.seq_from(p));
            assert(self.pre_at(p) =~= self.pre_at(p - 1) + self.child(p - 1)@ + seq![
                self.key_at(p - 1),
            ]);
        }
    }

    /// A leaf's contents are exactly its keys, in slot order.
    proof fn lemma_leaf_from(self, i: int)
        requires
            self.slots_ok(),
            self.size <= 3,
            self.is_leaf_spec(),
            forall|j: int| 0 <= j < 4 ==> (#[trigger] self.children@[j]) is None,
            0 <= i <= self.size,
        ensures
            self.seq_from(i).len() == self.size - i,
            forall|j: int|
                0 <= j < self.size - i ==> self.seq_from(i)[j] == self.key_at(i + j),
        decreases self.size - i,
    {
        if i < self.size {
            self.lemma_leaf_from(i + 1);
        }
    }

    /// Two nodes that agree on keys, size, and on every child but slot `p`
    /// have the same contents from any suffix strictly right of `p`.
    proof fn lemma_frame_from(t1: Tree234, t2: Tree234, i: int)
        requires
            t1.slots_ok(),
            t2.slots_ok(),
            t1.size == t2.size,
            t1.size <= 3,
            forall|j: int| i <= j < t1.size ==> t1.data@[j] == t2.data@[j],
            forall|j: int| i <= j <= t1.size ==> t1.children@[j] == t2.children@[j],
            0 <= i <= t1.size,
        ensures
            t1.seq_from(i) == t2.seq_from(i),
        decreases t1.size - i,
    {
        if i < t1.size {
            Self::lemma_frame_from(t1, t2, i + 1);
        }
    }

    /// Nodes that agree on all slots left of `q` have the same contents
    /// left of child `q`.
    proof fn lemma_frame_pre(t1: Tree234, t2: Tree234, q: int)
        requires
            forall|j: int| 0 <= j < q ==> t1.children@[j] == t2.children@[j],
            forall|j: int| 0 <= j < q ==> t1.data@[j] == t2.data@[j],
        ensures
            t1.pre_at(q) == t2.pre_at(q),
        decreases q,
    {
        if q > 0 {
            Self::lemma_frame_pre(t1, t2, q - 1);
        }
    }

    /// When `tb` holds the same key and child slots as `ta`, shifted one
    /// place to the right from index `i` on, their suffix contents coincide.
    proof fn lemma_shift_from(ta: Tree234, tb: Tree234, i: int)
        requires
            ta.slots_ok(),
            tb.slots_ok(),
            ta.size <= 2,
            tb.size == ta.size + 1,
            forall|j: int| i <= j < tb.size ==> tb.data@[j] == ta.data@[j - 1],
            forall|j: int| i <= j <= tb.size ==> tb.children@[j] == ta.children@[j - 1],
            1 <= i <= tb.size,
        ensures
            tb.seq_from(i) == ta.seq_from(i - 1),
        decreases tb.size - i,
    {
        if i < tb.size {
            Self::lemma_shift_from(ta, tb, i + 1);
        }
    }

    /// Replacing the child in slot `p` changes the contents only inside that
    /// child's segment of the decomposition.
    proof fn lemma_frame(t1: Tree234, t2: Tree234, p: int)
        requires
            t1.node_shape(),
            t2.node_shape(),
            !t1.is_leaf_spec(),
            !t2.is_leaf_spec(),
            t1.size == t2.size,
            t1.data@ == t2.data@,
            forall|j: int| 0 <= j < 4 && j != p ==> t1.children@[j] == t2.children@[j],
            0 <= p <= t1.size,
        ensures
            t1@ =~= t1.pre_at(p) + t1.child(p)@ + t1.post_at(p),
            t2@ =~= t1.pre_at(p) + t2.child(p)@ + t1.post_at(p),
    {
        t1.lemma_decompose(p);
        t2.lemma_decompose(p);
        Self::lemma_frame_pre(t1, t2, p);
        if p < t1.size {
            Self::lemma_frame_from(t1, t2, p + 1);
        }
    }

    /// Everything left of child `p` is bounded above by key `p - 1`.
    proof fn lemma_pre_all_le(self, p: int)
        requires
            self.wf(),
            !self.is_leaf_spec(),
            1 <= p <= self.size,
        ensures
            all_le(self.pre_at(p), self.key_at(p - 1)),
        decreases p,
    {
        if p > 1 {
            self.lemma_pre_all_le(p - 1);
        }
        let a = self.pre_at(p - 1);
        let c = self.child(p - 1)@;
        let s = self.pre_at(p);
        assert(all_le(c, self.key_at(p - 1)));
        assert forall|k: int| 0 <= k < s.len() implies #[trigger] s[k] <= self.key_at(p - 1) by {
            if k < a.len() {
                assert(s[k] == a[k]);
                assert(a[k] <= self.key_at(p - 2));
            } else if k < a.len() + c.len() {
                assert(s[k] == c[k - a.len()]);
            } else {
                assert(s[k] == self.key_at(p - 1));
            }
        }
    }

    /// Every key and child content from suffix `i` on is at least `b`
    /// whenever `b` is below key `i - 1`.
    proof fn lemma_from_all_ge(self, i: int, b: usize)
        requires
            self.wf(),
            !self.is_leaf_spec(),
            1 <= i <= self.size,
            b <= self.key_at(i - 1),
        ensures
            all_ge(self.seq_from(i), b),
        decreases self.size - i,
    {
        assert(all_ge(self.child(i)@, self.key_at(i - 1)));
        let c = self.child(i)@;
        let s = self.seq_from(i);
        if i < self.size {
            self.lemma_from_all_ge(i + 1, b);
            let rest = self.seq_from(i + 1);
            assert forall|k: int| 0 <= k < s.len() implies #[trigger] s[k] >= b by {
                if k < c.len() {
                    assert(s[k] == c[k]);
                } else if k == c.len() {
                    assert(s[k] == self.key_at(i));
                } else {
                    assert(s[k] == rest[k - c.len() - 1]);
                }
            }
        } else {
            assert(s == c);
        }
    }

    /// Everything right of child `p` is bounded below by key `p`.
    proof fn lemma_post_all_ge(self, p: int)
        requires
            self.wf(),
            !self.is_leaf_spec(),
            0 <= p < self.size,
        ensures
            all_ge(self.post_at(p), self.key_at(p)),
    {
        self.lemma_from_all_ge(p + 1, self.key_at(p));
    }

    /// The contents of a well-formed node are sorted, and bounded below by
    /// the key preceding the suffix where they start.
    proof fn lemma_sorted_from(self, i: int)
        requires
            self.wf(),
            0 <= i <= self.size,
        ensures
            sorted(self.seq_from(i)),
        decreases self, self.size - i + 1,
    {
        if self.is_leaf_spec() {
            self.lemma_leaf_from(i);
        } else {
            (*self.children@[i]->0).lemma_sorted_from(0);
            if i < self.size {
                self.lemma_sorted_from(i + 1);
                self.lemma_from_all_ge(i + 1, self.key_at(i));
                lemma_sorted_glue(self.child(i)@, self.key_at(i), self.seq_from(i + 1));
            }
        }
    }

    /// A node stays well-formed when one child is replaced by a well-formed
    /// node of the same height whose contents respect the adjacent keys.
    proof fn lemma_wf_child_replaced(t1: Tree234, t2: Tree234, p: int)
        requires
            t1.wf(),
            !t1.is_leaf_spec(),
            0 <= p <= t1.size,
            t2.slots_ok(),
            t2.size == t1.size,
            t2.data@ == t1.data@,
            forall|j: int| 0 <= j < 4 && j != p ==> t2.children@[j] == t1.children@[j],
            t2.children@[p] is Some,
            t2.child(p).wf(),
            t2.child(p).size >= 1,
            t2.child(p).height() == t1.child(p).height(),
            p < t1.size ==> all_le(t2.child(p)@, t1.key_at(p)),
            p >= 1 ==> all_ge(t2.child(p)@, t1.key_at(p - 1)),
        ensures
            t2.wf(),
            !t2.is_leaf_spec(),
            t2.height() == t1.height(),
    {
        assert forall|j: int, k: int| 0 <= j < k < t2.size implies t2.key_at(j)
            <= t2.key_at(k) by {
            assert(t2.key_at(j) == t1.key_at(j));
            assert(t2.key_at(k) == t1.key_at(k));
        }
        assert forall|j: int| 0 <= j <= t2.size implies (#[trigger] t2.child(j)).wf()
            && t2.child(j).size >= 1 && t2.child(j).height() == t2.child(0).height() by {
            if j != p {
                assert(t2.child(j) == t1.child(j));
            }
            if p != 0 {
                assert(t2.child(0) == t1.child(0));
            }
        }
        assert forall|j: int| 0 <= j < t2.size implies all_le(
            (#[trigger] t2.child(j))@,
            t2.key_at(j),
        ) by {
            if j != p {
                assert(t2.child(j) == t1.child(j));
            }
        }
        assert forall|j: int| 1 <= j <= t2.size implies all_ge(
            (#[trigger] t2.child(j))@,
            t2.key_at(j - 1),
        ) by {
            if j != p {
                assert(t2.child(j) == t1.child(j));
            }
        }
        if p != 0 {
            assert(t2.child(0) == t1.child(0));
        }
    }

    /// A node stays well-formed when two adjacent children and the key
    /// between them are replaced consistently: the new pair has the old
    /// height, the new key separates them, and the outer bounds still hold.
    proof fn lemma_wf_pair_replaced(t1: Tree234, t2: Tree234, b: int)
        requires
            t1.wf(),
            !t1.is_leaf_spec(),
            0 <= b < t1.size,
            t2.slots_ok(),
            t2.size == t1.size,
            forall|j: int| 0 <= j < 4 && j != b ==> t2.data@[j] == t1.data@[j],
            t2.data@[b] is Some,
            forall|j: int|
                0 <= j < 4 && j != b && j != b + 1 ==> t2.children@[j] == t1.children@[j],
            t2.children@[b] is Some,
            t2.children@[b + 1] is Some,
            t2.child(b).wf(),
            t2.child(b + 1).wf(),
            t2.child(b).size >= 1,
            t2.child(b + 1).size >= 1,
            t2.child(b).height() == t1.child(b).height(),
            t2.child(b + 1).height() == t1.child(b).height(),
            all_le(t2.child(b)@, t2.key_at(b)),
            all_ge(t2.child(b + 1)@, t2.key_at(b)),
            b >= 1 ==> t1.key_at(b - 1) <= t2.key_at(b) && all_ge(
                t2.child(b)@,
                t1.key_at(b - 1),
            ),
            b + 1 < t1.size ==> t2.key_at(b) <= t1.key_at(b + 1) && all_le(
                t2.child(b + 1)@,
                t1.key_at(b + 1),
            ),
        ensures
            t2.wf(),
            !t2.is_leaf_spec(),
            t2.height() == t1.height(),
    {
        assert forall|j: int, k: int| 0 <= j < k < t2.size implies t2.key_at(j)
            <= t2.key_at(k) by {
            if j != b {
                assert(t2.key_at(j) == t1.key_at(j));
            }
            if k != b {
                assert(t2.key_at(k) == t1.key_at(k));
            }
            if k == b && j < b - 1 {
                assert(t1.key_at(j) <= t1.key_at(b - 1));
            }
            if j == b && k > b + 1 {
                assert(t1.key_at(b + 1) <= t1.key_at(k));
            }
        }
        assert forall|j: int| 0 <= j <= t2.size implies (#[trigger] t2.child(j)).wf()
            && t2.child(j).size >= 1 && t2.child(j).height() == t2.child(0).height() by {
            if j != b && j != b + 1 {
                assert(t2.child(j) == t1.child(j));
            }
            if b != 0 {
                assert(t2.child(0) == t1.child(0));
            }
        }
        assert forall|j: int| 0 <= j < t2.size implies all_le(
            (#[trigger] t2.child(j))@,
            t2.key_at(j),
        ) by {
            if j != b && j != b + 1 {
                assert(t2.child(j) == t1.child(j));
                assert(t2.key_at(j) == t1.key_at(j));
            }
            if j == b + 1 && j < t1.size {
                assert(t2.key_at(j) == t1.key_at(j));
            }
        }
        assert forall|j: int| 1 <= j <= t2.size implies all_ge(
            (#[trigger] t2.child(j))@,
            t2.key_at(j - 1),
        ) by {
            if j != b && j != b + 1 {
                assert(t2.child(j) == t1.child(j));
                assert(t2.key_at(j - 1) == t1.key_at(j - 1));
            }
            if j == b && j >= 1 {
                assert(t2.key_at(j - 1) == t1.key_at(j - 1));
            }
        }
        if b != 0 {
            assert(t2.child(0) == t1.child(0));
        }
    }

    /// A node stays well-formed when two adjacent children and the key
    /// between them are fused into a single well-formed child of the same
    /// height carrying exactly their contents.
    proof fn lemma_wf_fused(t1: Tree234, t2: Tree234, p: int)
        requires
            t1.wf(),
            !t1.is_leaf_spec(),
            t1.size >= 2,
            0 <= p < t1.size,
            t2.slots_ok(),
            t2.size == t1.size - 1,
            t2.data@ == t1.data@.remove(p).push(None),
            forall|j: int| 0 <= j < p ==> t2.children@[j] == t1.children@[j],
            forall|j: int| p < j < 3 ==> t2.children@[j] == t1.children@[j + 1],
            t2.children@[3] is None,
            t2.children@[p] is Some,
            t2.child(p).wf(),
            t2.child(p).size >= 1,
            t2.child(p).height() == t1.child(p).height(),
            t2.child(p)@ =~= t1.child(p)@ + seq![t1.key_at(p)] + t1.child(p + 1)@,
        ensures
            t2.wf(),
            !t2.is_leaf_spec(),
            t2.height() == t1.height(),
    {
        lemma_bounds_concat(t1.child(p)@, t1.key_at(p), t1.child(p + 1)@);
        assert forall|j: int, k: int| 0 <= j < k < t2.size implies t2.key_at(j)
            <= t2.key_at(k) by {
            if j < p {
                assert(t2.key_at(j) == t1.key_at(j));
            } else {
                assert(t2.key_at(j) == t1.key_at(j + 1));
            }
            if k < p {
                assert(t2.key_at(k) == t1.key_at(k));
            } else {
                assert(t2.key_at(k) == t1.key_at(k + 1));
            }
        }
        assert forall|j: int| 0 <= j < t2.size implies (#[trigger] t2.data@[j]) is Some by {
            if j < p {
                assert(t2.data@[j] == t1.data@[j]);
            } else {
                assert(t2.data@[j] == t1.data@[j + 1]);
            }
        }
        assert forall|j: int| t2.size <= j < 4 implies (#[trigger] t2.data@[j]) is None by {
            if j < 3 {
                assert(t2.data@[j] == t1.data@[j + 1]);
            }
        }
        assert forall|j: int| 0 <= j <= t2.size implies (#[trigger] t2.child(j)).wf()
            && t2.child(j).size >= 1 && t2.child(j).height() == t2.child(0).height() by {
            if j < p {
                assert(t2.child(j) == t1.child(j));
            } else if j > p {
                assert(t2.child(j) == t1.child(j + 1));
            }
            if p != 0 {
                assert(t2.child(0) == t1.child(0));
            }
        }
        assert forall|j: int| 0 <= j < t2.size implies all_le(
            (#[trigger] t2.child(j))@,
            t2.key_at(j),
        ) by {
            if j < p {
                assert(t2.child(j) == t1.child(j));
            } else if j > p {
                assert(t2.child(j) == t1.child(j + 1));
                assert(t2.key_at(j) == t1.key_at(j + 1));
            } else {
                assert(t2.key_at(j) == t1.key_at(p + 1));
                assert(all_le(t1.child(p)@, t1.key_at(p)));
                assert(t1.key_at(p) <= t1.key_at(p + 1));
                assert(all_le(t1.child(p + 1)@, t1.key_at(p + 1)));
                assert(all_le(t1.child(p)@ + seq![t1.key_at(p)] + t1.child(p + 1)@,
                    t1.key_at(p + 1)));
            }
        }
        assert forall|j: int| 1 <= j <= t2.size implies all_ge(
            (#[trigger] t2.child(j))@,
            t2.key_at(j - 1),
        ) by {
            if j < p {
                assert(t2.child(j) == t1.child(j));
            } else if j > p {
                assert(t2.child(j) == t1.child(j + 1));
                assert(t2.key_at(j - 1) == t1.key_at(j));
                assert(all_ge(t1.child(j + 1)@, t1.key_at(j)));
            } else {
                assert(t2.key_at(j - 1) == t1.key_at(p - 1));
                assert(all_ge(t1.child(p)@, t1.key_at(p - 1)));
                assert(t1.key_at(p - 1) <= t1.key_at(p));
                assert(all_ge(t1.child(p + 1)@, t1.key_at(p)));
                assert(all_ge(t1.child(p)@ + seq![t1.key_at(p)] + t1.child(p + 1)@,
                    t1.key_at(p - 1)));
            }
        }
        if p != 0 {
            assert(t2.child(0) == t1.child(0));
        }
    }

    /// Slot `q` is where a lookup or insertion for `target` proceeds in this
    /// node: every key left of `q` is below `target`, and key `q`, if it
    /// exists, is at least `target`. For keys equal to `target` this is the
    /// leftmost such slot. The slot is unique for any one `target`.
    pub open spec fn seeks_to(self, target: int, q: int) -> bool {
        &&& 0 <= q <= self.size
        &&& (forall|j: int| 0 <= j < q ==> self.key_at(j) < target)
        &&& (q < self.size ==> target <= self.key_at(q))
    }

    /// Whether rebalancing the undersized child in slot `pos` has to collapse
    /// this node with its two children, reducing the height: no adjacent
    /// sibling can spare a key, and the node itself cannot spare one either.
    pub open spec fn balance_shrinks(self, pos: int) -> bool {
        &&& self.size == 1
        &&& !(pos > 0 && self.child(pos - 1).size >= 2)
        &&& !(pos < self.size && self.child(pos + 1).size >= 2)
    }

    /// Joining two one-key nodes of equal height around a separating key
    /// `k1` gives a well-formed three-key node of the same height carrying
    /// the concatenated contents.
    proof fn lemma_join_pieces(a: Tree234, k1: usize, b: Tree234, m: Tree234)
        requires
            a.wf(),
            b.wf(),
            a.size == 1,
            b.size == 1,
            a.height() == b.height(),
            m.size == 3,
            m.data@ =~= seq![a.data@[0], Some(k1), b.data@[0], None],
            m.children@ =~= seq![
                a.children@[0],
                a.children@[1],
                b.children@[0],
                b.children@[1],
            ],
            all_le(a@, k1),
            all_ge(b@, k1),
        ensures
            m.wf(),
            m@ =~= a@ + seq![k1] + b@,
            m.height() == a.height(),
            m.is_leaf_spec() == a.is_leaf_spec(),
    {
        if a.is_leaf_spec() != b.is_leaf_spec() {
            assert(a.height() != b.height());
        }
        if a.is_leaf_spec() {
            a.lemma_leaf_from(0);
            b.lemma_leaf_from(0);
            m.lemma_leaf_from(0);
            assert(a@[0] == a.key_at(0));
            assert(b@[0] == b.key_at(0));
            assert(m@ =~= a@ + seq![k1] + b@);
            assert(m.wf());
        } else {
            assert(m.child(0) == a.child(0));
            assert(m.child(1) == a.child(1));
            assert(m.child(2) == b.child(0));
            assert(m.child(3) == b.child(1));
            assert(a.seq_from(1) == a.child(1)@);
            assert(a@ == a.child(0)@ + seq![a.key_at(0)] + a.seq_from(1));
            assert(b.seq_from(1) == b.child(1)@);
            assert(b@ == b.child(0)@ + seq![b.key_at(0)] + b.seq_from(1));
            assert(m.seq_from(3) == m.child(3)@);
            assert(m.seq_from(2) == m.child(2)@ + seq![m.key_at(2)] + m.seq_from(3));
            assert(m.seq_from(1) == m.child(1)@ + seq![m.key_at(1)] + m.seq_from(2));
            assert(m@ == m.child(0)@ + seq![m.key_at(0)] + m.seq_from(1));
            assert(m@ =~= a@ + seq![k1] + b@);
            // key order through the middle
            assert(a@[a.child(0)@.len() as int] == a.key_at(0));
            assert(a.key_at(0) <= k1);
            assert(b@[b.child(0)@.len() as int] == b.key_at(0));
            assert(b.key_at(0) >= k1);
            // bounds of the inner children against the middle key
            assert forall|k: int| 0 <= k < a.child(1)@.len() implies #[trigger] a.child(
                1,
            )@[k] <= k1 by {
                assert(a@[a.child(0)@.len() + 1 + k] == a.child(1)@[k]);
            }
            assert forall|k: int| 0 <= k < b.child(0)@.len() implies #[trigger] b.child(
                0,
            )@[k] >= k1 by {
                assert(b@[k] == b.child(0)@[k]);
            }
            assert(m.wf());
        }
    }

    /// Splitting a full node: the two half nodes built from its outer keys
    /// and children are well-formed, keep its height, and carry its contents
    /// around the middle key.
    proof fn lemma_split_pieces(c: Tree234, left: Tree234, right: Tree234)
        requires
            c.wf(),
            c.size == 3,
            left.size == 1,
            right.size == 1,
            left.data@ =~= seq![c.data@[0], None, None, None],
            right.data@ =~= seq![c.data@[2], None, None, None],
            left.children@ =~= seq![c.children@[0], c.children@[1], None, None],
            right.children@ =~= seq![c.children@[2], c.children@[3], None, None],
        ensures
            c@ =~= left@ + seq![c.key_at(1)] + right@,
            left.wf(),
            right.wf(),
            left.height() == c.height(),
            right.height() == c.height(),
            all_le(left@, c.key_at(1)),
            all_ge(right@, c.key_at(1)),
            forall|b: usize|
                all_le(c@, b) ==> all_le(left@, b) && all_le(right@, b) && c.key_at(1) <= b,
            forall|b: usize|
                all_ge(c@, b) ==> all_ge(left@, b) && all_ge(right@, b) && c.key_at(1) >= b,
    {
        if c.is_leaf_spec() {
            c.lemma_leaf_from(0);
            left.lemma_leaf_from(0);
            right.lemma_leaf_from(0);
            assert(c@ =~= left@ + seq![c.key_at(1)] + right@);
        } else {
            assert(c.seq_from(3) == c.child(3)@);
            assert(c.seq_from(2) == c.child(2)@ + seq![c.key_at(2)] + c.seq_from(3));
            assert(c.seq_from(1) == c.child(1)@ + seq![c.key_at(1)] + c.seq_from(2));
            assert(c@ == c.child(0)@ + seq![c.key_at(0)] + c.seq_from(1));
            assert(left.child(0) == c.child(0));
            assert(left.child(1) == c.child(1));
            assert(right.child(0) == c.child(2));
            assert(right.child(1) == c.child(3));
            assert(left.seq_from(1) == left.child(1)@);
            assert(left@ == left.child(0)@ + seq![left.key_at(0)] + left.seq_from(1));
            assert(right.seq_from(1) == right.child(1)@);
            assert(right@ == right.child(0)@ + seq![right.key_at(0)] + right.seq_from(1));
            assert(c@ =~= left@ + seq![c.key_at(1)] + right@);
            assert(left.wf());
            assert(right.wf());
        }
        let mid = c.key_at(1);
        let w = left@ + seq![mid] + right@;
        assert(w[left@.len() as int] == mid);
        assert forall|b: usize| all_le(c@, b) implies all_le(left@, b) && all_le(right@, b)
            && mid <= b by {
            assert forall|k: int| 0 <= k < left@.len() implies #[trigger] left@[k] <= b by {
                assert(left@[k] == w[k]);
                assert(c@[k] <= b);
            }
            assert forall|k: int| 0 <= k < right@.len() implies #[trigger] right@[k] <= b by {
                assert(right@[k] == w[k + left@.len() + 1]);
                assert(c@[k + left@.len() + 1] <= b);
            }
            assert(c@[left@.len() as int] <= b);
        }
        assert forall|b: usize| all_ge(c@, b) implies all_ge(left@, b) && all_ge(right@, b)
            && mid >= b by {
            assert forall|k: int| 0 <= k < left@.len() implies #[trigger] left@[k] >= b by {
                assert(left@[k] == w[k]);
                assert(c@[k] >= b);
            }
            assert forall|k: int| 0 <= k < right@.len() implies #[trigger] right@[k] >= b by {
                assert(right@[k] == w[k + left@.len() + 1]);
                assert(c@[k + left@.len() + 1] >= b);
            }
            assert(c@[left@.len() as int] >= b);
        }
        c.lemma_wf_sorted();
        assert(sorted(w));
        assert forall|k: int| 0 <= k < left@.len() implies #[trigger] left@[k] <= mid by {
            assert(left@[k] == w[k]);
        }
        assert forall|k: int| 0 <= k < right@.len() implies #[trigger] right@[k] >= mid by {
            assert(right@[k] == w[k + left@.len() + 1]);
        }
        assert(all_le(left@, mid));
        assert(all_ge(right@, mid));
    }

    /// The full contents of a well-formed tree are sorted.
    pub proof fn lemma_wf_sorted(self)
        requires
            self.wf(),
        ensures
            sorted(self@),
    {
        self.lemma_sorted_from(0);
    }
}

/// A sequence whose multiset grew by one element `x <= b` from a sequence
/// bounded by `b` is still bounded by `b`.
proof fn lemma_all_le_insert_ms(s1: Seq<usize>, s2: Seq<usize>, x: usize, b: usize)
    requires
        s2.to_multiset() == s1.to_multiset().insert(x),
        all_le(s1, b),
        x <= b,
    ensures
        all_le(s2, b),
{
    broadcast use vstd::seq_lib::group_to_multiset_ensures;
    broadcast use vstd::multiset::group_multiset_axioms;

    assert forall|k: int| 0 <= k < s2.len() implies #[trigger] s2[k] <= b by {
        let e = s2[k];
        assert(s2.contains(e));
        assert(s2.to_multiset().count(e) > 0);
        if e != x {
            assert(s1.to_multiset().count(e) > 0);
            assert(s1.contains(e));
            let i = choose|i: int| 0 <= i < s1.len() && s1[i] == e;
            assert(s1[i] <= b);
        }
    }
}

/// The mirror fact for a lower bound.
proof fn lemma_all_ge_insert_ms(s1: Seq<usize>, s2: Seq<usize>, x: usize, b: usize)
    requires
        s2.to_multiset() == s1.to_multiset().insert(x),
        all_ge(s1, b),
        x >= b,
    ensures
        all_ge(s2, b),
{
    broadcast use vstd::seq_lib::group_to_multiset_ensures;
    broadcast use vstd::multiset::group_multiset_axioms;

    assert forall|k: int| 0 <= k < s2.len() implies #[trigger] s2[k] >= b by {
        let e = s2[k];
        assert(s2.contains(e));
        assert(s2.to_multiset().count(e) > 0);
        if e != x {
            assert(s1.to_multiset().count(e) > 0);
            assert(s1.contains(e));
            let i = choose|i: int| 0 <= i < s1.len() && s1[i] == e;
            assert(s1[i] >= b);
        }
    }
}

/// Bounds survive removing one element from the multiset of a sequence.
proof fn lemma_bounds_remove_ms(s1: Seq<usize>, s2: Seq<usize>, x: usize)
    requires
        s2.to_multiset() == s1.to_multiset().remove(x),
    ensures
        forall|b: usize| all_le(s1, b) ==> all_le(s2, b),
        forall|b: usize| all_ge(s1, b) ==> all_ge(s2, b),
{
    broadcast use vstd::seq_lib::group_to_multiset_ensures;
    broadcast use vstd::multiset::group_multiset_axioms;

    assert forall|b: usize| all_le(s1, b) implies all_le(s2, b) by {
        assert forall|k: int| 0 <= k < s2.len() implies #[trigger] s2[k] <= b by {
            let e = s2[k];
            assert(s2.contains(e));
            assert(s2.to_multiset().count(e) > 0);
            assert(s1.to_multiset().count(e) > 0);
            assert(s1.contains(e));
            let i = choose|i: int| 0 <= i < s1.len() && s1[i] == e;
            assert(s1[i] <= b);
        }
    }
    assert forall|b: usize| all_ge(s1, b) implies all_ge(s2, b) by {
        assert forall|k: int| 0 <= k < s2.len() implies #[trigger] s2[k] >= b by {
            let e = s2[k];
            assert(s2.contains(e));
            assert(s2.to_multiset().count(e) > 0);
            assert(s1.to_multiset().count(e) > 0);
            assert(s1.contains(e));
            let i = choose|i: int| 0 <= i < s1.len() && s1[i] == e;
            assert(s1[i] >= b);
        }
    }
}

/// The multiset of a three-way concatenation is the sum of the parts.
proof fn lemma_concat3_ms(a: Seq<usize>, b: Seq<usize>, c: Seq<usize>)
    ensures
        (a + b + c).to_multiset() == a.to_multiset().add(b.to_multiset()).add(c.to_multiset()),
{
    vstd::seq_lib::lemma_multiset_commutative(a, b);
    vstd::seq_lib::lemma_multiset_commutative(a + b, c);
}

/// Bounds on two pieces and a middle element carry over to the glued whole.
proof fn lemma_bounds_concat(a: Seq<usize>, x: usize, b: Seq<usize>)
    ensures
        forall|bd: usize|
            all_le(a, bd) && x <= bd && all_le(b, bd) ==> all_le(a + seq![x] + b, bd),
        forall|bd: usize|
            all_ge(a, bd) && x >= bd && all_ge(b, bd) ==> all_ge(a + seq![x] + b, bd),
{
    let s = a + seq![x] + b;
    assert forall|bd: usize| all_le(a, bd) && x <= bd && all_le(b, bd) implies all_le(
        s,
        bd,
    ) by {
        assert forall|k: int| 0 <= k < s.len() implies #[trigger] s[k] <= bd by {
            if k < a.len() {
                assert(s[k] == a[k]);
            } else if k == a.len() {
                assert(s[k] == x);
            } else {
                assert(s[k] == b[k - a.len() - 1]);
            }
        }
    }
    assert forall|bd: usize| all_ge(a, bd) && x >= bd && all_ge(b, bd) implies all_ge(
        s,
        bd,
    ) by {
        assert forall|k: int| 0 <= k < s.len() implies #[trigger] s[k] >= bd by {
            if k < a.len() {
                assert(s[k] == a[k]);
            } else if k == a.len() {
                assert(s[k] == x);
            } else {
                assert(s[k] == b[k - a.len() - 1]);
            }
        }
    }
}

/// Bounds and sortedness of a whole carry down to its three pieces.
proof fn lemma_bounds_split(a: Seq<usize>, x: usize, b: Seq<usize>, w: Seq<usize>)
    requires
        w =~= a + seq![x] + b,
    ensures
        forall|bd: usize| all_le(w, bd) ==> all_le(a, bd) && x <= bd && all_le(b, bd),
        forall|bd: usize| all_ge(w, bd) ==> all_ge(a, bd) && x >= bd && all_ge(b, bd),
        sorted(w) ==> all_le(a, x) && all_ge(b, x),
{
    assert(w[a.len() as int] == x);
    assert forall|bd: usize| all_le(w, bd) implies all_le(a, bd) && x <= bd && all_le(
        b,
        bd,
    ) by {
        assert forall|k: int| 0 <= k < a.len() implies #[trigger] a[k] <= bd by {
            assert(a[k] == w[k]);
        }
        assert forall|k: int| 0 <= k < b.len() implies #[trigger] b[k] <= bd by {
            assert(b[k] == w[k + a.len() + 1]);
        }
    }
    assert forall|bd: usize| all_ge(w, bd) implies all_ge(a, bd) && x >= bd && all_ge(
        b,
        bd,
    ) by {
        assert forall|k: int| 0 <= k < a.len() implies #[trigger] a[k] >= bd by {
            assert(a[k] == w[k]);
        }
        assert forall|k: int| 0 <= k < b.len() implies #[trigger] b[k] >= bd by {
            assert(b[k] == w[k + a.len() + 1]);
        }
    }
    if sorted(w) {
        assert forall|k: int| 0 <= k < a.len() implies #[trigger] a[k] <= x by {
            assert(a[k] == w[k]);
        }
        assert forall|k: int| 0 <= k < b.len() implies #[trigger] b[k] >= x by {
            assert(b[k] == w[k + a.len() + 1]);
        }
    }
}

/// Sorted pieces bounded by a middle element glue into a sorted whole.
proof fn lemma_sorted_glue(a: Seq<usize>, x: usize, b: Seq<usize>)
    requires
        sorted(a),
        sorted(b),
        all_le(a, x),
        all_ge(b, x),
    ensures
        sorted(a + seq![x] + b),
{
    let s = a + seq![x] + b;
    assert forall|j: int, k: int| 0 <= j < k < s.len() implies s[j] <= s[k] by {
        if j < a.len() {
            assert(s[j] == a[j]);
        }
        if k < a.len() {
            assert(s[k] == a[k]);
        }
        if j > a.len() {
            assert(s[j] == b[j - a.len() - 1]);
        }
        if k > a.len() {
            assert(s[k] == b[k - a.len() - 1]);
        }
    }
}

/// Builds a 4-slot array holding the four given slots.
fn four_slots<X>(a: Option<X>, b: Option<X>, c: Option<X>, d: Option<X>) -> (v: Vec<Option<X>>)
    ensures
        v@ =~= seq![a, b, c, d],
{
    let mut v: Vec<Option<X>> = Vec::new();
    v.push(a);
    v.push(b);
    v.push(c);
    v.push(d);
    v
}

/// Inserts `value` at `index` in a 4-slot array, shifting the later slots one
/// place to the right and dropping the last one.
fn insert_to_array<S>(array: &mut Vec<S>, index: usize, value: S)
    requires
        old(array)@.len() == 4,
        index < 4,
    ensures
        final(array)@ == old(array)@.insert(index as int, value).take(4),
        final(array)@.len() == 4,
{
    array.insert(index, value);
    let _ = array.pop();
    proof {
        assert(array@ =~= old(array)@.insert(index as int, value).take(4));
    }
}

/// Removes and returns the slot at `index` in a 4-slot array, shifting the
/// later slots one place to the left; the freed last slot becomes empty.
fn delete_from_array<X>(array: &mut Vec<Option<X>>, index: usize) -> (r: Option<X>)
    requires
        old(array)@.len() == 4,
        index < 4,
    ensures
        r == old(array)@[index as int],
        final(array)@ == old(array)@.remove(index as int).push(None),
        final(array)@.len() == 4,
{
    let r = array.remove(index);
    array.push(None);
    r
}

impl View for Tree234 {
    type V = Seq<usize>;

    /// The in-order sequence of all keys stored in the tree.
    open spec fn view(&self) -> Seq<usize> {
        self.seq_from(0)
    }
}

impl Tree234 {
    /// Creates an empty tree.
    pub fn new() -> (tree: Self)
        ensures
            tree.wf(),
            tree@ =~= Seq::<usize>::empty(),
            tree.size == 0,
            tree.height() == 1,
    {
        let mut data: Vec<Option<usize>> = Vec::new();
        data.push(None);
        data.push(None);
        data.push(None);
        data.push(None);
        let mut children: Vec<Option<Box<Tree234>>> = Vec::new();
        children.push(None);
        children.push(None);
        children.push(None);
        children.push(None);
        Self { data, children, size: 0 }
    }

    /// Resets the tree to the empty state, discarding all nodes.
    pub fn clear(&mut self)
        ensures
            final(self).wf(),
            final(self)@ =~= Seq::<usize>::empty(),
            final(self).size == 0,
    {
        let empty = Tree234::new();
        *self = empty;
    }

    /// Returns true exactly when the tree holds no keys.
    pub fn is_empty(&self) -> (r: bool)
        requires
            self.wf(),
        ensures
            r <==> self@.len() == 0,
            r == (self.size == 0),
    {
        proof {
            self.lemma_view_len();
        }
        self.size == 0
    }

    /// A well-formed node stores at least `size` keys, and exactly `size`
    /// when it is a leaf.
    proof fn lemma_view_len(self)
        requires
            self.wf(),
        ensures
            self@.len() >= self.size,
            self.is_leaf_spec() ==> self@.len() == self.size,
        decreases self,
    {
        self.lemma_seq_from_len(0);
    }

    /// Splits a full root in two: the middle key stays in this node, whose
    /// only children become the two halves. The contents are unchanged; the
    /// height grows by one. Only the true root is ever full when entered,
    /// every other node having been split by its parent first.
    fn split_root(&mut self)
        requires
            old(self).wf(),
            old(self).size == 3,
        ensures
            final(self).wf(),
            final(self)@ =~= old(self)@,
            final(self).size == 1,
            !final(self).is_leaf_spec(),
            final(self).height() == old(self).height() + 1,
            final(self).child(0).size == 1,
            final(self).child(1).size == 1,
            final(self).key_at(0) == old(self).key_at(1),
    {
        let d0 = self.data[0];
        let d1 = self.data[1];
        let d2 = self.data[2];
        let c3 = self.children.pop().unwrap();
        let c2 = self.children.pop().unwrap();
        let c1 = self.children.pop().unwrap();
        let c0 = self.children.pop().unwrap();
        let left = Tree234 {
            data: four_slots(d0, None, None, None),
            children: four_slots(c0, c1, None, None),
            size: 1,
        };
        let right = Tree234 {
            data: four_slots(d2, None, None, None),
            children: four_slots(c2, c3, None, None),
            size: 1,
        };
        let ghost gl = left;
        let ghost gr = right;
        self.data = four_slots(d1, None, None, None);
        self.children = four_slots(Some(Box::new(left)), Some(Box::new(right)), None, None);
        self.size = 1;
        proof {
            let c = *old(self);
            Self::lemma_split_pieces(c, gl, gr);
            assert(self.child(0) == gl);
            assert(self.child(1) == gr);
            assert(self.seq_from(1) == gr@);
            assert(self@ == gl@ + seq![d1->0] + self.seq_from(1));
            assert(self@ =~= c@);
            assert(self.wf());
        }
    }

    /// Splits the full child in slot `pos` into two half nodes, promoting its
    /// middle key into this node at slot `pos`. The contents and the height
    /// are unchanged.
    #[verifier::rlimit(80)]
    fn split_child(&mut self, pos: usize)
        requires
            old(self).wf(),
            !old(self).is_leaf_spec(),
            old(self).size <= 2,
            pos <= old(self).size,
            old(self).child(pos as int).size == 3,
        ensures
            final(self).wf(),
            final(self)@ =~= old(self)@,
            final(self).size == old(self).size + 1,
            !final(self).is_leaf_spec(),
            final(self).height() == old(self).height(),
            final(self).data@ == old(self).data@.insert(
                pos as int,
                Some(old(self).child(pos as int).key_at(1)),
            ).take(4),
            final(self).child(pos as int).size == 1,
            final(self).child(pos as int + 1).size == 1,
    {
        let child_opt = delete_from_array(&mut self.children, pos);
        let node = *(child_opt.unwrap());
        proof {
            assert(old(self).child(pos as int).wf());
            assert(node == old(self).child(pos as int));
        }
        let Tree234 { data: ndata, children: mut nch, size: _ } = node;
        let nd0 = ndata[0];
        let nd1 = ndata[1];
        let nd2 = ndata[2];
        let nc3 = nch.pop().unwrap();
        let nc2 = nch.pop().unwrap();
        let nc1 = nch.pop().unwrap();
        let nc0 = nch.pop().unwrap();
        let left = Tree234 {
            data: four_slots(nd0, None, None, None),
            children: four_slots(nc0, nc1, None, None),
            size: 1,
        };
        let right = Tree234 {
            data: four_slots(nd2, None, None, None),
            children: four_slots(nc2, nc3, None, None),
            size: 1,
        };
        let ghost gl = left;
        let ghost gr = right;
        insert_to_array(&mut self.children, pos, Some(Box::new(right)));
        insert_to_array(&mut self.children, pos, Some(Box::new(left)));
        insert_to_array(&mut self.data, pos, nd1);
        self.size = self.size + 1;
        proof {
            let t1 = *old(self);
            let t2 = *self;
            let p = pos as int;
            let c = t1.child(p);
            Self::lemma_split_pieces(c, gl, gr);
            // slot layout of the result
            assert(t2.children@.len() == 4);
            assert forall|j: int| 0 <= j < p implies t2.children@[j] == t1.children@[j] by {}
            assert(t2.child(p) == gl);
            assert(t2.child(p + 1) == gr);
            assert forall|j: int| p + 2 <= j < 4 implies t2.children@[j] == t1.children@[j
                - 1] by {}
            assert forall|j: int| 0 <= j < p implies t2.data@[j] == t1.data@[j] by {}
            assert(t2.key_at(p) == c.key_at(1));
            assert forall|j: int| p + 1 <= j < 4 implies t2.data@[j] == t1.data@[j - 1] by {}
            // contents are preserved
            t1.lemma_decompose(p);
            t2.lemma_decompose(p);
            Self::lemma_frame_pre(t1, t2, p);
            if p < t1.size {
                Self::lemma_shift_from(t1, t2, p + 2);
                assert(t2.seq_from(p + 1) == gr@ + seq![t2.key_at(p + 1)] + t2.seq_from(p + 2));
                assert(t1.post_at(p) == seq![t1.key_at(p)] + t1.seq_from(p + 1));
                assert(t2@ =~= t1.pre_at(p) + gl@ + seq![c.key_at(1)] + gr@ + t1.post_at(p));
            } else {
                assert(t2.seq_from(p + 1) == gr@);
                assert(t2@ =~= t1.pre_at(p) + gl@ + seq![c.key_at(1)] + gr@);
            }
            assert(t2@ =~= t1.pre_at(p) + c@ + t1.post_at(p));
            assert(t2@ =~= t1@);
            // well-formedness of the result
            assert forall|j: int, k: int| 0 <= j < k < t2.size implies t2.key_at(j)
                <= t2.key_at(k) by {
                if j == p {
                    assert(all_le(c@, t1.key_at(k - 1)));
                } else if k == p {
                    assert(all_ge(c@, t1.key_at(j)));
                }
            }
            assert forall|j: int| 0 <= j <= t2.size implies (#[trigger] t2.child(j)).wf()
                && t2.child(j).size >= 1 && t2.child(j).height() == t2.child(0).height() by {
                if j < p {
                    assert(t2.child(j) == t1.child(j));
                } else if j > p + 1 {
                    assert(t2.child(j) == t1.child(j - 1));
                }
                assert(t2.child(0).height() == c.height());
            }
            assert forall|j: int| 0 <= j < t2.size implies all_le(
                (#[trigger] t2.child(j))@,
                t2.key_at(j),
            ) by {
                if j < p {
                    assert(t2.child(j) == t1.child(j));
                } else if j == p {
                    assert(all_le(gl@, c.key_at(1)));
                } else if j == p + 1 {
                    assert(all_le(c@, t1.key_at(p)));
                } else {
                    assert(t2.child(j) == t1.child(j - 1));
                }
            }
            assert forall|j: int| 1 <= j <= t2.size implies all_ge(
                (#[trigger] t2.child(j))@,
                t2.key_at(j - 1),
            ) by {
                if j < p {
                    assert(t2.child(j) == t1.child(j));
                } else if j == p {
                    assert(all_ge(c@, t1.key_at(p - 1)));
                } else if j == p + 1 {
                    assert(all_ge(gr@, c.key_at(1)));
                } else {
                    assert(t2.child(j) == t1.child(j - 1));
                }
            }
            assert(t2.wf());
            assert(t2.height() == t1.height());
        }
    }

    /// Finds the slot index where `value` would reside in this node: the
    /// first key that is at least `value`, or `size` when every key is
    /// smaller. This is also the child to descend into.
    fn find_index(&self, value: &usize) -> (pos: usize)
        requires
            self.slots_ok(),
            self.size <= 3,
            forall|j: int| 0 <= j < self.size ==> (#[trigger] self.data@[j]) is Some,
        ensures
            pos <= self.size,
            forall|j: int| 0 <= j < pos ==> self.key_at(j) < *value,
            pos < self.size ==> *value <= self.key_at(pos as int),
    {
        let mut i: usize = 0;
        while i < self.size
            invariant
                self.slots_ok(),
                self.size <= 3,
                i <= self.size,
                forall|j: int| 0 <= j < self.size ==> (#[trigger] self.data@[j]) is Some,
                forall|j: int| 0 <= j < i ==> self.key_at(j) < *value,
            decreases self.size - i,
        {
            if *value <= self.data[i].unwrap() {
                return i;
            }
            i = i + 1;
        }
        self.size
    }

    /// A node is a leaf exactly when its first child slot is empty.
    pub fn is_leaf(&self) -> (r: bool)
        requires
            self.slots_ok(),
        ensures
            r == self.is_leaf_spec(),
    {
        self.children[0].is_none()
    }

    /// Every key of a well-formed node occurs in its contents.
    proof fn lemma_key_in_view(self, j: int)
        requires
            self.wf(),
            0 <= j < self.size,
        ensures
            self@.contains(self.key_at(j)),
    {
        if self.is_leaf_spec() {
            self.lemma_leaf_from(0);
            assert(self@[j] == self.key_at(j));
        } else {
            self.lemma_decompose(j);
            let i = self.pre_at(j).len() + self.child(j)@.len();
            assert(self@[i as int] == self.key_at(j));
        }
    }

    /// When `v` is not a key of this node and child `p` is the slot that
    /// covers `v`, then `v` lies in the whole node exactly when it lies in
    /// that child.
    proof fn lemma_contains_in_child(self, v: usize, p: int)
        requires
            self.wf(),
            !self.is_leaf_spec(),
            0 <= p <= self.size,
            forall|j: int| 0 <= j < p ==> self.key_at(j) < v,
            p < self.size ==> v < self.key_at(p),
        ensures
            self@.contains(v) <==> self.child(p)@.contains(v),
    {
        self.lemma_decompose(p);
        let pre = self.pre_at(p);
        let c = self.child(p)@;
        let post = self.post_at(p);
        if c.contains(v) {
            let k = choose|k: int| 0 <= k < c.len() && c[k] == v;
            assert(self@[pre.len() + k] == v);
        }
        if self@.contains(v) {
            let k = choose|k: int| 0 <= k < self@.len() && self@[k] == v;
            if k < pre.len() {
                assert(p >= 1) by {
                    if p == 0 {
                        assert(pre.len() == 0);
                    }
                }
                self.lemma_pre_all_le(p);
                assert(pre[k] <= self.key_at(p - 1));
                assert(false);
            } else if k >= pre.len() + c.len() {
                self.lemma_post_all_ge(p);
                assert(post[k - pre.len() - c.len()] >= self.key_at(p));
                assert(false);
            } else {
                assert(c[k - pre.len()] == v);
            }
        }
    }

    /// Returns true exactly when `value` is stored in the tree.
    pub fn find(&self, value: &usize) -> (r: bool)
        requires
            self.wf(),
        ensures
            r == self@.contains(*value),
        decreases self.height(),
    {
        let pos = self.find_index(value);
        if pos < self.size && self.data[pos].unwrap() == *value {
            proof {
                self.lemma_key_in_view(pos as int);
            }
            return true;
        }
        if self.is_leaf() {
            proof {
                self.lemma_leaf_from(0);
                assert forall|k: int| 0 <= k < self@.len() implies self@[k] != *value by {
                    assert(self@[k] == self.key_at(k));
                    if k >= pos {
                        assert(self.key_at(pos as int) <= self.key_at(k));
                    }
                }
            }
            return false;
        }
        proof {
            self.lemma_contains_in_child(*value, pos as int);
            assert(self.child(pos as int).height() < self.height());
        }
        self.children[pos].as_ref().unwrap().find(value)
    }

    /// Inserts `value` into the tree. Insertion always succeeds; a duplicate
    /// of a stored key is kept as an additional equal entry. Full nodes are
    /// split before they are entered, so no node ever overflows and only the
    /// root split ever grows the height.
    #[verifier::rlimit(100)]
    pub fn insert(&mut self, value: usize)
        requires
            old(self).wf(),
        ensures
            final(self).wf(),
            final(self)@.to_multiset() == old(self)@.to_multiset().insert(value),
            final(self).size >= 1,
            old(self).size <= 2 ==> final(self).height() == old(self).height(),
        decreases old(self).height(), old(self).size,
    {
        if self.size == 3 {
            self.split_root();
        }
        let ghost t0 = *self;
        proof {
            broadcast use vstd::seq_lib::group_to_multiset_ensures;

            assert(t0@.to_multiset() == old(self)@.to_multiset());
        }
        let mut pos = self.find_index(&value);
        if self.is_leaf() {
            let ghost p = pos as int;
            insert_to_array(&mut self.data, pos, Some(value));
            self.size = self.size + 1;
            proof {
                t0.lemma_leaf_from(0);
                self.lemma_leaf_from(0);
                assert forall|j: int, k: int| 0 <= j < k < self.size implies self.key_at(j)
                    <= self.key_at(k) by {
                    assert(j < p ==> self.key_at(j) == t0.key_at(j));
                    assert(k < p ==> self.key_at(k) == t0.key_at(k));
                    assert(j == p ==> self.key_at(j) == value);
                    assert(k == p ==> self.key_at(k) == value);
                    assert(j > p ==> self.key_at(j) == t0.key_at(j - 1));
                    assert(k > p ==> self.key_at(k) == t0.key_at(k - 1));
                }
                assert(self.wf());
                assert forall|j: int| 0 <= j < self@.len() implies self@[j] == t0@.insert(
                    p,
                    value,
                )[j] by {
                    assert(self@[j] == self.key_at(j));
                    if j < p {
                        assert(t0@[j] == t0.key_at(j));
                    } else if j > p {
                        assert(t0@[j - 1] == t0.key_at(j - 1));
                    }
                }
                assert(self@ =~= t0@.insert(p, value));
                vstd::seq_lib::to_multiset_insert(t0@, p, value);
            }
            return;
        }
        if self.children[pos].as_ref().unwrap().size == 3 {
            let ghost pold = pos as int;
            self.split_child(pos);
            pos = self.find_index(&value);
            proof {
                let q = pos as int;
                if q < pold {
                    assert(self.data@[q] == t0.data@[q]);
                    assert(t0.key_at(q) < value);
                    assert(false);
                }
                if q > pold + 1 {
                    assert(self.data@[pold + 1] == t0.data@[pold]);
                    assert(t0.key_at(pold) >= value);
                    assert(false);
                }
                assert(self.child(q).size == 1);
            }
        }
        let ghost t1 = *self;
        proof {
            assert(t1.wf());
            assert(t1.child(pos as int).wf());
            assert(t1.child(pos as int).size <= 2);
            assert(t1.child(pos as int).height() + 1 == t1.height());
            assert(t1@.to_multiset() == old(self)@.to_multiset());
        }
        let child_opt = self.children[pos].take();
        let bx = child_opt.unwrap();
        let mut node = *bx;
        proof {
            assert(node == t1.child(pos as int));
            if old(self).size == 3 {
                assert(node.height() == old(self).height());
                assert(node.size < old(self).size);
            } else {
                assert(node.height() < old(self).height());
            }
        }
        node.insert(value);
        let ghost c2 = node;
        self.children[pos] = Some(Box::new(node));
        proof {
            broadcast use vstd::seq_lib::group_to_multiset_ensures;
            broadcast use vstd::multiset::group_multiset_axioms;

            let t2 = *self;
            let p = pos as int;
            let c = t1.child(p);
            assert(t2.children@ =~= t1.children@.update(p, t2.children@[p]));
            assert(t2.child(p) == c2);
            assert forall|j: int| 0 <= j < 4 && j != p implies t1.children@[j]
                == t2.children@[j] by {}
            Self::lemma_frame(t1, t2, p);
            let pre = t1.pre_at(p);
            let post = t1.post_at(p);
            lemma_concat3_ms(pre, c@, post);
            lemma_concat3_ms(pre, c2@, post);
            assert(t2@.to_multiset() =~= t1@.to_multiset().insert(value));
            // the node stays well-formed
            assert(c2.wf());
            assert(c2.size >= 1);
            assert(c2.height() == c.height());
            assert(t2.slots_ok());
            assert(t2.size == t1.size);
            assert(t2.data@ == t1.data@);
            if p < t1.size {
                lemma_all_le_insert_ms(c@, c2@, value, t1.key_at(p));
            }
            if p >= 1 {
                lemma_all_ge_insert_ms(c@, c2@, value, t1.key_at(p - 1));
            }
            Self::lemma_wf_child_replaced(t1, t2, p);
        }
    }

    /// Builds the one node that carries `a`, the key `k1`, and `b`, in that
    /// order: the fusing step shared by merging and shrinking.
    fn join_nodes(a: Tree234, k1: usize, b: Tree234) -> (m: Tree234)
        requires
            a.wf(),
            b.wf(),
            a.size == 1,
            b.size == 1,
            a.height() == b.height(),
            all_le(a@, k1),
            all_ge(b@, k1),
        ensures
            m.wf(),
            m@ =~= a@ + seq![k1] + b@,
            m.height() == a.height(),
            m.size == 3,
    {
        let ghost ga = a;
        let ghost gb = b;
        let Tree234 { data: adata, children: mut ach, size: _ } = a;
        let Tree234 { data: bdata, children: mut bch, size: _ } = b;
        let _ = ach.pop();
        let _ = ach.pop();
        let ac1 = ach.pop().unwrap();
        let ac0 = ach.pop().unwrap();
        let _ = bch.pop();
        let _ = bch.pop();
        let bc1 = bch.pop().unwrap();
        let bc0 = bch.pop().unwrap();
        let m = Tree234 {
            data: four_slots(adata[0], Some(k1), bdata[0], None),
            children: four_slots(ac0, ac1, bc0, bc1),
            size: 3,
        };
        proof {
            Self::lemma_join_pieces(ga, k1, gb, m);
        }
        m
    }

    /// Collapses this one-key node and its two one-key children into a single
    /// three-key node, reducing the tree's height by one. This is the only
    /// operation that changes the height downward, and it is well-formed only
    /// for a node with exactly two children.
    fn shrink(&mut self)
        requires
            old(self).wf(),
            !old(self).is_leaf_spec(),
            old(self).size == 1,
            old(self).child(0).size == 1,
            old(self).child(1).size == 1,
        ensures
            final(self).wf(),
            final(self)@ =~= old(self)@,
            final(self).size == 3,
            final(self).height() + 1 == old(self).height(),
    {
        proof {
            assert(old(self).child(0).wf());
            assert(old(self).child(1).wf());
        }
        let copt0 = self.children[0].take();
        let c0 = *copt0.unwrap();
        let copt1 = self.children[1].take();
        let c1 = *copt1.unwrap();
        let k = self.data[0].unwrap();
        let m = Self::join_nodes(c0, k, c1);
        *self = m;
        proof {
            let t1 = *old(self);
            t1.lemma_decompose(0);
            assert(t1.post_at(0) == seq![t1.key_at(0)] + t1.seq_from(1));
            assert(t1.seq_from(1) == t1.child(1)@);
            assert(self@ =~= t1@);
        }
    }

    /// Gives the one-key child in slot `pos` a second key by borrowing across
    /// the parent key from an adjacent sibling that can spare one: the parent
    /// key moves down into the child, the sibling's adjacent-most key moves up
    /// into its place, and the sibling's adjacent-most child follows the key.
    /// The left sibling is preferred. `target` is the key the ongoing deletion
    /// seeks; afterwards the child covering it can spare a key.
    #[verifier::rlimit(100)]
    fn rotate(&mut self, pos: usize, Ghost(target): Ghost<int>)
        requires
            old(self).wf(),
            !old(self).is_leaf_spec(),
            pos <= old(self).size,
            old(self).child(pos as int).size == 1,
            old(self).seeks_to(target, pos as int),
            (pos > 0 && old(self).child(pos as int - 1).size >= 2) || (pos < old(self).size
                && old(self).child(pos as int + 1).size >= 2),
        ensures
            final(self).wf(),
            final(self)@ =~= old(self)@,
            !final(self).is_leaf_spec(),
            final(self).size == old(self).size,
            final(self).height() == old(self).height(),
            forall|q: int|
                final(self).seeks_to(target, q) ==> final(self).child(q).size >= 2,
    {
        if pos > 0 && self.children[pos - 1].as_ref().unwrap().size > 1 {
            self.rotate_from_left(pos, Ghost(target));
        } else {
            self.rotate_from_right(pos, Ghost(target));
        }
    }

    /// Removing the last key and child slot of a node keeps it well-formed
    /// and splits off exactly its suffix.
    proof fn lemma_trim_last(s1: Tree234, s2: Tree234)
        requires
            s1.wf(),
            s1.size >= 2,
            s2.size == s1.size - 1,
            s2.data@ == s1.data@.remove(s1.size - 1).push(None),
            s2.children@ == s1.children@.remove(s1.size as int).push(None),
        ensures
            s2.wf(),
            s2.height() == s1.height(),
            s2.is_leaf_spec() == s1.is_leaf_spec(),
            s1@ =~= s2@ + seq![s1.key_at(s1.size - 1)] + opt_seq(
                s1.children@[s1.size as int],
            ),
            all_le(s2@, s1.key_at(s1.size - 1)),
            all_ge(opt_seq(s1.children@[s1.size as int]), s1.key_at(s1.size - 1)),
            forall|bd: usize|
                all_le(s1@, bd) ==> all_le(s2@, bd) && all_le(
                    opt_seq(s1.children@[s1.size as int]),
                    bd,
                ) && s1.key_at(s1.size - 1) <= bd,
            forall|bd: usize|
                all_ge(s1@, bd) ==> all_ge(s2@, bd) && all_ge(
                    opt_seq(s1.children@[s1.size as int]),
                    bd,
                ) && s1.key_at(s1.size - 1) >= bd,
            (s1.children@[s1.size as int] is Some) == !s1.is_leaf_spec(),
            !s1.is_leaf_spec() ==> s1.child(s1.size as int).wf() && s1.child(
                s1.size as int,
            ).size >= 1 && s1.child(s1.size as int).height() + 1 == s1.height(),
    {
        let mi = s1.size as int;
        let bkey = s1.key_at(mi - 1);
        let bc = opt_seq(s1.children@[mi]);
        if s1.is_leaf_spec() {
            s1.lemma_leaf_from(0);
            s2.lemma_leaf_from(0);
            assert(s1@ =~= s2@ + seq![bkey] + bc);
            assert forall|j: int| 0 <= j < 4 implies (#[trigger] s2.children@[j])
                is None by {}
            assert forall|j: int, kk: int| 0 <= j < kk < s2.size implies s2.key_at(j)
                <= s2.key_at(kk) by {
                assert(s2.key_at(j) == s1.key_at(j));
                assert(s2.key_at(kk) == s1.key_at(kk));
            }
            assert(s2.wf());
        } else {
            s1.lemma_decompose(mi - 1);
            assert(s1.post_at(mi - 1) == seq![bkey] + s1.seq_from(mi));
            assert(s1.seq_from(mi) == s1.child(mi)@);
            s2.lemma_decompose(mi - 1);
            Self::lemma_frame_pre(s1, s2, mi - 1);
            assert(s2.child(mi - 1) == s1.child(mi - 1));
            assert(s2.post_at(mi - 1) == Seq::<usize>::empty());
            assert(bc == s1.child(mi)@);
            assert(s1@ =~= s2@ + seq![bkey] + bc);
            assert forall|j: int| 0 <= j <= s2.size implies (#[trigger] s2.child(j)).wf()
                && s2.child(j).size >= 1 && s2.child(j).height() == s2.child(
                0,
            ).height() by {
                assert(s2.child(j) == s1.child(j));
                assert(s2.child(0) == s1.child(0));
            }
            assert forall|j: int| 0 <= j < s2.size implies all_le(
                (#[trigger] s2.child(j))@,
                s2.key_at(j),
            ) by {
                assert(s2.child(j) == s1.child(j));
                assert(s2.key_at(j) == s1.key_at(j));
            }
            assert forall|j: int| 1 <= j <= s2.size implies all_ge(
                (#[trigger] s2.child(j))@,
                s2.key_at(j - 1),
            ) by {
                assert(s2.child(j) == s1.child(j));
                assert(s2.key_at(j - 1) == s1.key_at(j - 1));
            }
            assert forall|j: int, kk: int| 0 <= j < kk < s2.size implies s2.key_at(j)
                <= s2.key_at(kk) by {
                assert(s2.key_at(j) == s1.key_at(j));
                assert(s2.key_at(kk) == s1.key_at(kk));
            }
            assert(s2.child(0) == s1.child(0));
            assert forall|j: int| 0 <= j < s2.size implies (#[trigger] s2.data@[j])
                is Some by {
                assert(s2.data@[j] == s1.data@[j]);
            }
            assert forall|j: int| s2.size <= j < 4 implies (#[trigger] s2.data@[j])
                is None by {}
            assert forall|j: int| 0 <= j <= s2.size implies (#[trigger] s2.children@[j])
                is Some by {
                assert(s2.children@[j] == s1.children@[j]);
            }
            assert forall|j: int| s2.size < j < 4 implies (#[trigger] s2.children@[j])
                is None by {}
            assert(s2.wf());
        }
        s1.lemma_wf_sorted();
        lemma_bounds_split(s2@, bkey, bc, s1@);
    }

    /// Removing the first key and child slot of a node keeps it well-formed
    /// and splits off exactly its prefix.
    proof fn lemma_trim_first(s1: Tree234, s2: Tree234)
        requires
            s1.wf(),
            s1.size >= 2,
            s2.size == s1.size - 1,
            s2.data@ == s1.data@.remove(0).push(None),
            s2.children@ == s1.children@.remove(0).push(None),
        ensures
            s2.wf(),
            s2.height() == s1.height(),
            s2.is_leaf_spec() == s1.is_leaf_spec(),
            s1@ =~= opt_seq(s1.children@[0]) + seq![s1.key_at(0)] + s2@,
            all_ge(s2@, s1.key_at(0)),
            all_le(opt_seq(s1.children@[0]), s1.key_at(0)),
            forall|bd: usize|
                all_le(s1@, bd) ==> all_le(s2@, bd) && all_le(opt_seq(s1.children@[0]), bd)
                    && s1.key_at(0) <= bd,
            forall|bd: usize|
                all_ge(s1@, bd) ==> all_ge(s2@, bd) && all_ge(opt_seq(s1.children@[0]), bd)
                    && s1.key_at(0) >= bd,
            (s1.children@[0] is Some) == !s1.is_leaf_spec(),
            !s1.is_leaf_spec() ==> s1.child(0).wf() && s1.child(0).size >= 1 && s1.child(
                0,
            ).height() + 1 == s1.height(),
    {
        let bkey = s1.key_at(0);
        let bc = opt_seq(s1.children@[0]);
        if s1.is_leaf_spec() {
            s1.lemma_leaf_from(0);
            s2.lemma_leaf_from(0);
            assert(s1@ =~= bc + seq![bkey] + s2@);
            assert forall|j: int| 0 <= j < 4 implies (#[trigger] s2.children@[j])
                is None by {}
            assert forall|j: int, kk: int| 0 <= j < kk < s2.size implies s2.key_at(j)
                <= s2.key_at(kk) by {
                assert(s2.key_at(j) == s1.key_at(j + 1));
                assert(s2.key_at(kk) == s1.key_at(kk + 1));
            }
            assert(s2.wf());
        } else {
            s1.lemma_decompose(0);
            assert(s1.post_at(0) == seq![bkey] + s1.seq_from(1));
            Self::lemma_shift_from(s2, s1, 1);
            assert(s1@ =~= bc + seq![bkey] + s2@);
            assert forall|j: int| 0 <= j < 4 implies s2.children@[j] == (if j < 3 {
                s1.children@[j + 1]
            } else {
                None
            }) by {}
            assert forall|j: int| 0 <= j < 4 implies s2.data@[j] == (if j < 3 {
                s1.data@[j + 1]
            } else {
                None
            }) by {}
            assert forall|j: int| 0 <= j <= s2.size implies (#[trigger] s2.child(j)).wf()
                && s2.child(j).size >= 1 && s2.child(j).height() == s2.child(
                0,
            ).height() by {
                assert(s2.child(j) == s1.child(j + 1));
                assert(s2.child(0) == s1.child(1));
            }
            assert forall|j: int| 0 <= j < s2.size implies all_le(
                (#[trigger] s2.child(j))@,
                s2.key_at(j),
            ) by {
                assert(s2.child(j) == s1.child(j + 1));
                assert(s2.key_at(j) == s1.key_at(j + 1));
            }
            assert forall|j: int| 1 <= j <= s2.size implies all_ge(
                (#[trigger] s2.child(j))@,
                s2.key_at(j - 1),
            ) by {
                assert(s2.child(j) == s1.child(j + 1));
                assert(s2.key_at(j - 1) == s1.key_at(j));
            }
            assert forall|j: int, kk: int| 0 <= j < kk < s2.size implies s2.key_at(j)
                <= s2.key_at(kk) by {
                assert(s2.key_at(j) == s1.key_at(j + 1));
                assert(s2.key_at(kk) == s1.key_at(kk + 1));
            }
            assert(s2.wf());
            assert(s2.child(0) == s1.child(1));
            assert(s1.child(1).height() == s1.child(0).height());
            assert(s2.height() == s1.height());
        }
        s1.lemma_wf_sorted();
        lemma_bounds_split(bc, bkey, s2@, s1@);
    }

    /// Prepending a key and an optional child to a one-key node keeps it
    /// well-formed and prepends exactly those contents.
    proof fn lemma_grow_front(c1: Tree234, c2: Tree234, k: usize, extra: Option<
        Box<Tree234>,
    >)
        requires
            c1.wf(),
            c1.size == 1,
            (extra is Some) == !c1.is_leaf_spec(),
            extra is Some ==> (*extra->0).wf() && (*extra->0).size >= 1 && (*extra->0).height()
                + 1 == c1.height(),
            all_le(opt_seq(extra), k),
            all_ge(c1@, k),
            c2.size == 2,
            c2.data@ == c1.data@.insert(0, Some(k)).take(4),
            c2.children@ == c1.children@.insert(0, extra).take(4),
        ensures
            c2.wf(),
            c2.height() == c1.height(),
            c2.is_leaf_spec() == c1.is_leaf_spec(),
            c2@ =~= opt_seq(extra) + seq![k] + c1@,
    {
        let bc = opt_seq(extra);
        c1.lemma_key_in_view(0);
        assert(c1.key_at(0) >= k);
        if c1.is_leaf_spec() {
            c1.lemma_leaf_from(0);
            c2.lemma_leaf_from(0);
            assert(c2@ =~= bc + seq![k] + c1@);
            assert(c2.wf());
        } else {
            assert(c2.child(0)@ == bc);
            assert(c2.child(1) == c1.child(0));
            assert(c2.child(2) == c1.child(1));
            assert(c2.seq_from(2) == c2.child(2)@);
            assert(c2.seq_from(1) == c2.child(1)@ + seq![c2.key_at(1)] + c2.seq_from(2));
            assert(c2@ == c2.child(0)@ + seq![c2.key_at(0)] + c2.seq_from(1));
            assert(c1.seq_from(1) == c1.child(1)@);
            assert(c1@ == c1.child(0)@ + seq![c1.key_at(0)] + c1.seq_from(1));
            assert(c2@ =~= bc + seq![k] + c1@);
            lemma_bounds_split(c1.child(0)@, c1.key_at(0), c1.child(1)@, c1@);
            assert(all_ge(c1.child(0)@, k));
            assert(c2.child(0).height() == c2.child(1).height());
            assert(c2.child(0).height() == c2.child(2).height());
            assert(c2.wf());
        }
    }

    /// Appending a key and an optional child to a one-key node keeps it
    /// well-formed and appends exactly those contents.
    proof fn lemma_grow_back(c1: Tree234, c2: Tree234, k: usize, extra: Option<
        Box<Tree234>,
    >)
        requires
            c1.wf(),
            c1.size == 1,
            (extra is Some) == !c1.is_leaf_spec(),
            extra is Some ==> (*extra->0).wf() && (*extra->0).size >= 1 && (*extra->0).height()
                + 1 == c1.height(),
            all_ge(opt_seq(extra), k),
            all_le(c1@, k),
            c2.size == 2,
            c2.data@ == c1.data@.insert(1, Some(k)).take(4),
            c2.children@ == c1.children@.insert(2, extra).take(4),
        ensures
            c2.wf(),
            c2.height() == c1.height(),
            c2.is_leaf_spec() == c1.is_leaf_spec(),
            c2@ =~= c1@ + seq![k] + opt_seq(extra),
    {
        let bc = opt_seq(extra);
        c1.lemma_key_in_view(0);
        assert(c1.key_at(0) <= k);
        if c1.is_leaf_spec() {
            c1.lemma_leaf_from(0);
            c2.lemma_leaf_from(0);
            assert(c2@ =~= c1@ + seq![k] + bc);
            assert(c2.wf());
        } else {
            assert(c2.child(0) == c1.child(0));
            assert(c2.child(1) == c1.child(1));
            assert(c2.child(2)@ == bc);
            assert(c2.seq_from(2) == c2.child(2)@);
            assert(c2.seq_from(1) == c2.child(1)@ + seq![c2.key_at(1)] + c2.seq_from(2));
            assert(c2@ == c2.child(0)@ + seq![c2.key_at(0)] + c2.seq_from(1));
            assert(c1.seq_from(1) == c1.child(1)@);
            assert(c1@ == c1.child(0)@ + seq![c1.key_at(0)] + c1.seq_from(1));
            assert(c2@ =~= c1@ + seq![k] + bc);
            lemma_bounds_split(c1.child(0)@, c1.key_at(0), c1.child(1)@, c1@);
            assert(all_le(c1.child(1)@, k));
            assert(c2.child(0).height() == c2.child(1).height());
            assert(c2.child(0).height() == c2.child(2).height());
            assert(c2.wf());
        }
    }

    /// The borrowing step of `rotate` when the left sibling spares a key.
    #[verifier::rlimit(100)]
    fn rotate_from_left(&mut self, pos: usize, Ghost(target): Ghost<int>)
        requires
            old(self).wf(),
            !old(self).is_leaf_spec(),
            pos <= old(self).size,
            old(self).child(pos as int).size == 1,
            old(self).seeks_to(target, pos as int),
            pos > 0,
            old(self).child(pos as int - 1).size >= 2,
        ensures
            final(self).wf(),
            final(self)@ =~= old(self)@,
            !final(self).is_leaf_spec(),
            final(self).size == old(self).size,
            final(self).height() == old(self).height(),
            forall|q: int|
                final(self).seeks_to(target, q) ==> final(self).child(q).size >= 2,
    {
        let ghost t1 = *old(self);
        let bpos = pos - 1;
        proof {
            assert(t1.child(bpos as int).wf());
            assert(t1.child(pos as int).wf());
        }
        let sopt = self.children[bpos].take();
        let mut s = *sopt.unwrap();
        let copt = self.children[pos].take();
        let mut c = *copt.unwrap();
        let ghost s1 = s;
        let ghost c1 = c;
        let k = self.data[bpos].unwrap();
        let m = s.size;
        let bkey = delete_from_array(&mut s.data, m - 1).unwrap();
        let bchild = delete_from_array(&mut s.children, m);
        s.size = m - 1;
        let ghost s2 = s;
        proof {
            Self::lemma_trim_last(s1, s2);
            assert(bchild == s1.children@[s1.size as int]);
            assert(all_le(s1@, k));
            assert(all_ge(c1@, k));
            assert(s1@[s2@.len() as int] == bkey);
            assert(bkey <= k);
            assert(all_le(opt_seq(bchild), k));
            assert(c1.height() == s1.height());
            if s1.is_leaf_spec() != c1.is_leaf_spec() {
                if s1.is_leaf_spec() {
                    assert(c1.child(0).height() >= 1);
                } else {
                    assert(s1.child(0).height() >= 1);
                }
                assert(false);
            }
        }
        insert_to_array(&mut c.data, 0, Some(k));
        insert_to_array(&mut c.children, 0, bchild);
        c.size = 2;
        let ghost c2 = c;
        proof {
            Self::lemma_grow_front(c1, c2, k, bchild);
        }
        self.data[bpos] = Some(bkey);
        self.children[bpos] = Some(Box::new(s));
        self.children[pos] = Some(Box::new(c));
        proof {
            let t2 = *self;
            let p = pos as int;
            let b = bpos as int;
            assert(t2.child(b) == s2);
            assert(t2.child(p) == c2);
            Self::lemma_rotate_left_post(t1, t2, s1, s2, c1, c2, opt_seq(bchild), k, bkey, p,
                target);
        }
    }

    /// The state after borrowing from the left sibling: contents unchanged,
    /// well-formedness restored, and the covering child holding two keys.
    #[verifier::rlimit(100)]
    proof fn lemma_rotate_left_post(
        t1: Tree234,
        t2: Tree234,
        s1: Tree234,
        s2: Tree234,
        c1: Tree234,
        c2: Tree234,
        bc: Seq<usize>,
        k: usize,
        bkey: usize,
        p: int,
        target: int,
    )
        requires
            t1.wf(),
            !t1.is_leaf_spec(),
            1 <= p <= t1.size,
            t1.seeks_to(target, p),
            c1 == t1.child(p),
            c1.size == 1,
            s1 == t1.child(p - 1),
            s1.size >= 2,
            k == t1.key_at(p - 1),
            bkey == s1.key_at(s1.size - 1),
            s1@ =~= s2@ + seq![bkey] + bc,
            s2.wf(),
            s2.height() == s1.height(),
            s2.size == s1.size - 1,
            all_le(s2@, bkey),
            all_ge(bc, bkey),
            c2.wf(),
            c2.height() == c1.height(),
            c2.size == 2,
            c2@ =~= bc + seq![k] + c1@,
            t2.slots_ok(),
            t2.size == t1.size,
            forall|j: int| 0 <= j < 4 && j != p - 1 ==> t2.data@[j] == t1.data@[j],
            t2.data@[p - 1] == Some(bkey),
            forall|j: int|
                0 <= j < 4 && j != p - 1 && j != p ==> t2.children@[j] == t1.children@[j],
            t2.children@[p - 1] is Some,
            t2.children@[p] is Some,
            t2.child(p - 1) == s2,
            t2.child(p) == c2,
        ensures
            t2.wf(),
            t2@ =~= t1@,
            !t2.is_leaf_spec(),
            t2.height() == t1.height(),
            forall|q: int| t2.seeks_to(target, q) ==> t2.child(q).size >= 2,
    {
        let b = p - 1;
        assert(all_le(s1@, k));
        assert(s1@[s2@.len() as int] == bkey);
        assert(bkey <= k);
        assert(all_ge(c1@, k));
        lemma_bounds_split(s2@, bkey, bc, s1@);
        {
            // contents of the whole node are unchanged
            t1.lemma_decompose(b);
            t2.lemma_decompose(b);
            Self::lemma_frame_pre(t1, t2, b);
            if p < t1.size {
                Self::lemma_frame_from(t1, t2, p + 1);
            }
            assert(t1.post_at(b) == seq![k] + t1.seq_from(p));
            assert(t2.post_at(b) == seq![bkey] + t2.seq_from(p));
            if p < t1.size {
                assert(t1.seq_from(p) == c1@ + seq![t1.key_at(p)] + t1.seq_from(p + 1));
                assert(t2.seq_from(p) == c2@ + seq![t2.key_at(p)] + t2.seq_from(p + 1));
            } else {
                assert(t1.seq_from(p) == c1@);
                assert(t2.seq_from(p) == c2@);
            }
            assert(t2@ =~= t1@);
            // the node around the pair stays well-formed
            lemma_bounds_concat(bc, k, c1@);
            assert(all_ge(bc, bkey));
            assert(all_ge(c1@, bkey));
            assert(all_ge(c2@, bkey));
            if b >= 1 {
                assert(all_ge(s1@, t1.key_at(b - 1)));
                assert(bkey >= t1.key_at(b - 1));
                assert(all_ge(s2@, t1.key_at(b - 1)));
            }
            if p < t1.size {
                assert(all_le(c1@, t1.key_at(p)));
                assert(all_le(bc, t1.key_at(p)));
                assert(all_le(c2@, t1.key_at(p)));
                assert(bkey <= t1.key_at(p));
            }
            assert(s2.height() == t1.child(b).height());
            assert(c2.height() == t1.child(b).height());
            Self::lemma_wf_pair_replaced(t1, t2, b);
            // the child covering the target now has two keys
            assert forall|q: int| t2.seeks_to(target, q) implies t2.child(q).size
                >= 2 by {
                assert(t1.key_at(b) < target);
                assert(t2.key_at(b) <= t1.key_at(b));
                if q != p {
                    if q < p {
                        assert(t2.key_at(q) < target);
                        assert(target <= t2.key_at(q));
                    } else {
                        assert(t2.key_at(p) == t1.key_at(p));
                    }
                    assert(false);
                }
                assert(t2.child(p).size == 2);
            }
        }
    }

    /// The borrowing step of `rotate` when the right sibling spares a key.
    #[verifier::rlimit(100)]
    fn rotate_from_right(&mut self, pos: usize, Ghost(target): Ghost<int>)
        requires
            old(self).wf(),
            !old(self).is_leaf_spec(),
            pos < old(self).size,
            old(self).child(pos as int).size == 1,
            old(self).seeks_to(target, pos as int),
            old(self).child(pos as int + 1).size >= 2,
        ensures
            final(self).wf(),
            final(self)@ =~= old(self)@,
            !final(self).is_leaf_spec(),
            final(self).size == old(self).size,
            final(self).height() == old(self).height(),
            forall|q: int|
                final(self).seeks_to(target, q) ==> final(self).child(q).size >= 2,
    {
        let ghost t1 = *old(self);
        let bpos = pos + 1;
        proof {
            assert(t1.child(bpos as int).wf());
            assert(t1.child(pos as int).wf());
        }
        let sopt = self.children[bpos].take();
        let mut s = *sopt.unwrap();
        let copt = self.children[pos].take();
        let mut c = *copt.unwrap();
        let ghost s1 = s;
        let ghost c1 = c;
        let k = self.data[pos].unwrap();
        let bkey = delete_from_array(&mut s.data, 0).unwrap();
        let bchild = delete_from_array(&mut s.children, 0);
        s.size = s.size - 1;
        let ghost s2 = s;
        proof {
            Self::lemma_trim_first(s1, s2);
            assert(bchild == s1.children@[0]);
            assert(all_ge(s1@, k));
            assert(all_le(c1@, k));
            assert(s1@[opt_seq(bchild).len() as int] == bkey);
            assert(bkey >= k);
            assert(all_ge(opt_seq(bchild), k));
            assert(c1.height() == s1.height());
            if s1.is_leaf_spec() != c1.is_leaf_spec() {
                if s1.is_leaf_spec() {
                    assert(c1.child(0).height() >= 1);
                } else {
                    assert(s1.child(0).height() >= 1);
                }
                assert(false);
            }
        }
        insert_to_array(&mut c.data, 1, Some(k));
        insert_to_array(&mut c.children, 2, bchild);
        c.size = 2;
        let ghost c2 = c;
        proof {
            Self::lemma_grow_back(c1, c2, k, bchild);
        }
        self.data[pos] = Some(bkey);
        self.children[pos] = Some(Box::new(c));
        self.children[bpos] = Some(Box::new(s));
        proof {
            let t2 = *self;
            let p = pos as int;
            assert(t2.child(p) == c2);
            assert(t2.child(p + 1) == s2);
            Self::lemma_rotate_right_post(t1, t2, s1, s2, c1, c2, opt_seq(bchild), k, bkey,
                p, target);
        }
    }

    /// The state after borrowing from the right sibling: contents unchanged,
    /// well-formedness restored, and the covering child holding two keys.
    #[verifier::rlimit(100)]
    proof fn lemma_rotate_right_post(
        t1: Tree234,
        t2: Tree234,
        s1: Tree234,
        s2: Tree234,
        c1: Tree234,
        c2: Tree234,
        bc: Seq<usize>,
        k: usize,
        bkey: usize,
        p: int,
        target: int,
    )
        requires
            t1.wf(),
            !t1.is_leaf_spec(),
            0 <= p < t1.size,
            t1.seeks_to(target, p),
            c1 == t1.child(p),
            c1.size == 1,
            s1 == t1.child(p + 1),
            s1.size >= 2,
            k == t1.key_at(p),
            bkey == s1.key_at(0),
            s1@ =~= bc + seq![bkey] + s2@,
            s2.wf(),
            s2.height() == s1.height(),
            s2.size == s1.size - 1,
            all_ge(s2@, bkey),
            all_le(bc, bkey),
            c2.wf(),
            c2.height() == c1.height(),
            c2.size == 2,
            c2@ =~= c1@ + seq![k] + bc,
            t2.slots_ok(),
            t2.size == t1.size,
            forall|j: int| 0 <= j < 4 && j != p ==> t2.data@[j] == t1.data@[j],
            t2.data@[p] == Some(bkey),
            forall|j: int|
                0 <= j < 4 && j != p && j != p + 1 ==> t2.children@[j] == t1.children@[j],
            t2.children@[p] is Some,
            t2.children@[p + 1] is Some,
            t2.child(p) == c2,
            t2.child(p + 1) == s2,
        ensures
            t2.wf(),
            t2@ =~= t1@,
            !t2.is_leaf_spec(),
            t2.height() == t1.height(),
            forall|q: int| t2.seeks_to(target, q) ==> t2.child(q).size >= 2,
    {
        let b = p + 1;
        assert(all_ge(s1@, k));
        assert(s1@[bc.len() as int] == bkey);
        assert(bkey >= k);
        assert(all_le(c1@, k));
        lemma_bounds_split(bc, bkey, s2@, s1@);
        {
            // contents of the whole node are unchanged
            t1.lemma_decompose(p);
            t2.lemma_decompose(p);
            Self::lemma_frame_pre(t1, t2, p);
            if p + 2 <= t1.size {
                Self::lemma_frame_from(t1, t2, p + 2);
            }
            assert(t1.post_at(p) == seq![k] + t1.seq_from(b));
            assert(t2.post_at(p) == seq![bkey] + t2.seq_from(b));
            if b < t1.size {
                assert(t1.seq_from(b) == s1@ + seq![t1.key_at(b)] + t1.seq_from(b + 1));
                assert(t2.seq_from(b) == s2@ + seq![t2.key_at(b)] + t2.seq_from(b + 1));
            } else {
                assert(t1.seq_from(b) == s1@);
                assert(t2.seq_from(b) == s2@);
            }
            assert(t2@ =~= t1@);
            // the node around the pair stays well-formed
            lemma_bounds_concat(c1@, k, bc);
            assert(all_le(bc, bkey));
            assert(all_le(c1@, bkey));
            assert(all_le(c2@, bkey));
            if p >= 1 {
                assert(all_ge(c1@, t1.key_at(p - 1)));
                assert(all_ge(bc, t1.key_at(p - 1)));
                assert(all_ge(c2@, t1.key_at(p - 1)));
                assert(t1.key_at(p - 1) <= bkey);
            }
            if b < t1.size {
                assert(all_le(s1@, t1.key_at(b)));
                assert(all_le(s2@, t1.key_at(b)));
                assert(bkey <= t1.key_at(b));
            }
            assert(all_ge(s2@, bkey));
            assert(c2.height() == t1.child(p).height());
            assert(s2.height() == t1.child(p).height());
            Self::lemma_wf_pair_replaced(t1, t2, p);
            // the child covering the target now has two keys
            assert forall|q: int| t2.seeks_to(target, q) implies t2.child(q).size
                >= 2 by {
                assert(target <= t1.key_at(p));
                assert(t1.key_at(p) <= t2.key_at(p));
                if q != p {
                    if q < p {
                        assert(t2.key_at(q) < target);
                        assert(target <= t2.key_at(q));
                    } else {
                        assert(t2.key_at(p) < target);
                    }
                    assert(false);
                }
                assert(t2.child(p).size == 2);
            }
        }
    }

    /// Fuses the one-key child in slot `pos` with an adjacent one-key sibling
    /// and the parent key between them into a single three-key child; this
    /// node gives up that key. The right sibling is used, except for the last
    /// child, which merges with its left sibling. `target` is the key the
    /// ongoing deletion seeks; afterwards the child covering it can spare a
    /// key.
    #[verifier::rlimit(100)]
    fn merge(&mut self, pos: usize, Ghost(target): Ghost<int>)
        requires
            old(self).wf(),
            !old(self).is_leaf_spec(),
            pos <= old(self).size,
            old(self).size >= 2,
            old(self).child(pos as int).size == 1,
            old(self).seeks_to(target, pos as int),
            pos == old(self).size ==> old(self).child(pos as int - 1).size == 1,
            pos < old(self).size ==> old(self).child(pos as int + 1).size == 1,
        ensures
            final(self).wf(),
            final(self)@ =~= old(self)@,
            !final(self).is_leaf_spec(),
            final(self).size == old(self).size - 1,
            final(self).height() == old(self).height(),
            forall|q: int|
                final(self).seeks_to(target, q) ==> final(self).child(q).size >= 2,
    {
        let ghost t1 = *old(self);
        proof {
            assert(t1.child(pos as int).wf());
            if pos == t1.size {
                assert(t1.child(pos as int - 1).wf());
            } else {
                assert(t1.child(pos as int + 1).wf());
            }
        }
        if pos == self.size {
            let p = pos - 1;
            let k = delete_from_array(&mut self.data, p).unwrap();
            let sopt = delete_from_array(&mut self.children, p);
            let s = *sopt.unwrap();
            let copt = self.children[p].take();
            let c = *copt.unwrap();
            let merged = Self::join_nodes(s, k, c);
            self.children[p] = Some(Box::new(merged));
            self.size = self.size - 1;
            proof {
                let pi = p as int;
                let t2 = *self;
                let ghost merged_view = t1.child(pi)@ + seq![t1.key_at(pi)] + t1.child(
                    pi + 1,
                )@;
                lemma_bounds_concat(t1.child(pi)@, t1.key_at(pi), t1.child(pi + 1)@);
                assert(t2.child(pi)@ =~= merged_view);
                t1.lemma_decompose(pi);
                assert(t1.post_at(pi) == seq![t1.key_at(pi)] + t1.seq_from(pi + 1));
                assert(t1.seq_from(pi + 1) == t1.child(pi + 1)@);
                t2.lemma_decompose(pi);
                Self::lemma_frame_pre(t1, t2, pi);
                assert(t2.post_at(pi) == Seq::<usize>::empty());
                assert(t2@ =~= t1@);
                Self::lemma_wf_fused(t1, t2, pi);
                assert forall|q: int| t2.seeks_to(target, q) implies t2.child(q).size
                    >= 2 by {
                    assert(t1.key_at(pi) < target);
                    if q < pi {
                        assert(target <= t2.key_at(q));
                        assert(t2.key_at(q) == t1.key_at(q));
                        assert(t1.key_at(q) <= t1.key_at(pi));
                    } else {
                        assert(t2.child(pi).size == 3);
                    }
                }
            }
        } else {
            let k = delete_from_array(&mut self.data, pos).unwrap();
            let sopt = delete_from_array(&mut self.children, pos + 1);
            let s = *sopt.unwrap();
            let copt = self.children[pos].take();
            let c = *copt.unwrap();
            let merged = Self::join_nodes(c, k, s);
            self.children[pos] = Some(Box::new(merged));
            self.size = self.size - 1;
            proof {
                let pi = pos as int;
                let t2 = *self;
                let ghost merged_view = t1.child(pi)@ + seq![t1.key_at(pi)] + t1.child(
                    pi + 1,
                )@;
                lemma_bounds_concat(t1.child(pi)@, t1.key_at(pi), t1.child(pi + 1)@);
                assert(t2.child(pi)@ =~= merged_view);
                t1.lemma_decompose(pi);
                assert(t1.post_at(pi) == seq![t1.key_at(pi)] + t1.seq_from(pi + 1));
                t2.lemma_decompose(pi);
                Self::lemma_frame_pre(t1, t2, pi);
                if pi + 1 < t1.size {
                    Self::lemma_shift_from(t2, t1, pi + 2);
                    assert(t1.seq_from(pi + 1) == t1.child(pi + 1)@ + seq![t1.key_at(pi + 1)]
                        + t1.seq_from(pi + 2));
                    assert(t2.post_at(pi) == seq![t2.key_at(pi)] + t2.seq_from(pi + 1));
                    assert(t2.key_at(pi) == t1.key_at(pi + 1));
                } else {
                    assert(t1.seq_from(pi + 1) == t1.child(pi + 1)@);
                    assert(t2.post_at(pi) == Seq::<usize>::empty());
                }
                assert(t2@ =~= t1@);
                Self::lemma_wf_fused(t1, t2, pi);
                assert forall|q: int| t2.seeks_to(target, q) implies t2.child(q).size
                    >= 2 by {
                    if q < pi {
                        assert(target <= t2.key_at(q));
                        assert(t2.key_at(q) == t1.key_at(q));
                    } else if q > pi {
                        assert(t2.key_at(pi) == t1.key_at(pi + 1));
                        assert(t1.key_at(pi) <= t1.key_at(pi + 1));
                        assert(t2.key_at(pi) < target);
                        assert(target <= t1.key_at(pi));
                        assert(false);
                    } else {
                        assert(t2.child(pi).size == 3);
                    }
                }
            }
        }
    }

    /// A node stays well-formed when one key and the child left of it are
    /// replaced consistently: the new key still separates its neighbours.
    proof fn lemma_wf_child_and_key_replaced(t1: Tree234, t2: Tree234, p: int)
        requires
            t1.wf(),
            !t1.is_leaf_spec(),
            0 <= p < t1.size,
            t2.slots_ok(),
            t2.size == t1.size,
            forall|j: int| 0 <= j < 4 && j != p ==> t2.data@[j] == t1.data@[j],
            t2.data@[p] is Some,
            forall|j: int| 0 <= j < 4 && j != p ==> t2.children@[j] == t1.children@[j],
            t2.children@[p] is Some,
            t2.child(p).wf(),
            t2.child(p).size >= 1,
            t2.child(p).height() == t1.child(p).height(),
            t2.key_at(p) <= t1.key_at(p),
            all_le(t2.child(p)@, t2.key_at(p)),
            p >= 1 ==> t1.key_at(p - 1) <= t2.key_at(p) && all_ge(
                t2.child(p)@,
                t1.key_at(p - 1),
            ),
        ensures
            t2.wf(),
            !t2.is_leaf_spec(),
            t2.height() == t1.height(),
    {
        assert forall|j: int, k: int| 0 <= j < k < t2.size implies t2.key_at(j)
            <= t2.key_at(k) by {
            if j != p {
                assert(t2.key_at(j) == t1.key_at(j));
            }
            if k != p {
                assert(t2.key_at(k) == t1.key_at(k));
            }
            if k == p && j < p - 1 {
                assert(t1.key_at(j) <= t1.key_at(p - 1));
            }
        }
        assert forall|j: int| 0 <= j <= t2.size implies (#[trigger] t2.child(j)).wf()
            && t2.child(j).size >= 1 && t2.child(j).height() == t2.child(0).height() by {
            if j != p {
                assert(t2.child(j) == t1.child(j));
            }
            if p != 0 {
                assert(t2.child(0) == t1.child(0));
            }
        }
        assert forall|j: int| 0 <= j < t2.size implies all_le(
            (#[trigger] t2.child(j))@,
            t2.key_at(j),
        ) by {
            if j != p {
                assert(t2.child(j) == t1.child(j));
                assert(t2.key_at(j) == t1.key_at(j));
            }
        }
        assert forall|j: int| 1 <= j <= t2.size implies all_ge(
            (#[trigger] t2.child(j))@,
            t2.key_at(j - 1),
        ) by {
            if j != p {
                assert(t2.child(j) == t1.child(j));
            }
            if j == p + 1 {
                assert(all_ge(t1.child(p + 1)@, t1.key_at(p)));
            }
        }
        if p != 0 {
            assert(t2.child(0) == t1.child(0));
        }
    }

    /// Restores the one-key child in slot `pos` to two or more keys before it
    /// is entered by a deletion seeking `target`: a rotation when an adjacent
    /// sibling can spare a key, else a merge when this node can spare one,
    /// else the height-reducing shrink of this node.
    fn delete_balance(&mut self, pos: usize, Ghost(target): Ghost<int>)
        requires
            old(self).wf(),
            !old(self).is_leaf_spec(),
            pos <= old(self).size,
            old(self).child(pos as int).size == 1,
            old(self).seeks_to(target, pos as int),
        ensures
            final(self).wf(),
            final(self)@ =~= old(self)@,
            !old(self).balance_shrinks(pos as int) ==> !final(self).is_leaf_spec() && final(self).height() == old(self).height() && final(self).size >= 1 && final(self).size + 1
                >= old(self).size && final(self).size <= old(self).size && (forall|q: int|
                final(self).seeks_to(target, q) ==> final(self).child(q).size >= 2),
            old(self).balance_shrinks(pos as int) ==> final(self).height() + 1 == old(self).height() && final(self).size == 3,
    {
        let rot_left = pos > 0 && self.children[pos - 1].as_ref().unwrap().size > 1;
        let rot_right = pos < self.size && self.children[pos + 1].as_ref().unwrap().size
            > 1;
        if rot_left || rot_right {
            self.rotate(pos, Ghost(target));
        } else if self.size > 1 {
            self.merge(pos, Ghost(target));
        } else {
            proof {
                assert(old(self).child(0).size == 1);
                assert(old(self).child(1).size == 1);
            }
            self.shrink();
        }
    }

    /// Removes and returns the greatest key of this subtree, rebalancing on
    /// the way down so that no node is left degenerate.
    fn remove_max(&mut self) -> (m: usize)
        requires
            old(self).wf(),
            old(self).size >= 2,
        ensures
            final(self).wf(),
            final(self).height() == old(self).height(),
            final(self).size >= 1,
            final(self).size + 1 >= old(self).size,
            final(self).size <= old(self).size,
            old(self)@.len() >= 1,
            m == old(self)@.last(),
            final(self)@ =~= old(self)@.drop_last(),
        decreases old(self).height(),
    {
        proof {
            old(self).lemma_view_len();
        }
        if self.is_leaf() {
            let ghost t1 = *self;
            let m = delete_from_array(&mut self.data, self.size - 1).unwrap();
            self.size = self.size - 1;
            proof {
                t1.lemma_leaf_from(0);
                self.lemma_leaf_from(0);
                assert forall|j: int, kk: int| 0 <= j < kk < self.size implies self.key_at(j)
                    <= self.key_at(kk) by {
                    assert(self.key_at(j) == t1.key_at(j));
                    assert(self.key_at(kk) == t1.key_at(kk));
                }
                assert(self.wf());
                assert forall|j: int| 0 <= j < self@.len() implies self@[j]
                    == t1@.drop_last()[j] by {
                    assert(self@[j] == self.key_at(j));
                    assert(t1@[j] == t1.key_at(j));
                }
                assert(self@ =~= t1@.drop_last());
                assert(m == t1@.last());
            }
            return m;
        }
        let lastpos = self.size;
        if self.children[lastpos].as_ref().unwrap().size == 1 {
            self.delete_balance(lastpos, Ghost(usize::MAX as int + 1));
        }
        let ghost t1 = *self;
        proof {
            assert(t1.seeks_to(usize::MAX as int + 1, t1.size as int));
            assert(t1.child(t1.size as int).size >= 2);
            assert(t1.child(t1.size as int).height() + 1 == t1.height());
        }
        let newlast = self.size;
        let copt = self.children[newlast].take();
        let mut node = *copt.unwrap();
        let m = node.remove_max();
        let ghost c2 = node;
        self.children[newlast] = Some(Box::new(node));
        proof {
            let t2 = *self;
            let p = newlast as int;
            let c = t1.child(p);
            assert forall|j: int| 0 <= j < 4 && j != p implies t1.children@[j]
                == t2.children@[j] by {}
            assert(t2.child(p) == c2);
            Self::lemma_frame(t1, t2, p);
            assert(t1.post_at(p) == Seq::<usize>::empty());
            assert(t1@ =~= t1.pre_at(p) + c@ + Seq::<usize>::empty());
            assert(t2@ =~= t1.pre_at(p) + c2@ + Seq::<usize>::empty());
            assert(c@.len() >= 1);
            assert(t1@.len() >= 1);
            assert(m == t1@.last());
            assert forall|j: int| 0 <= j < t2@.len() implies t2@[j]
                == t1@.drop_last()[j] by {
                if j < t1.pre_at(p).len() {
                    assert(t2@[j] == t1.pre_at(p)[j]);
                } else {
                    assert(t2@[j] == c2@[j - t1.pre_at(p).len()]);
                    assert(c2@[j - t1.pre_at(p).len()] == c@[j - t1.pre_at(p).len()]);
                }
            }
            assert(t2@ =~= t1@.drop_last());
            assert forall|kk: int| 0 <= kk < c2@.len() implies #[trigger] c2@[kk]
                == c@[kk] by {}
            if p >= 1 {
                assert(all_ge(c@, t1.key_at(p - 1)));
                assert(all_ge(c2@, t1.key_at(p - 1)));
            }
            Self::lemma_wf_child_replaced(t1, t2, p);
        }
        m
    }

    /// Deletes one occurrence of `value` from the tree, returning whether it
    /// was present; an absent value leaves the contents unchanged. Undersized
    /// nodes are rebalanced before they are entered, and a key found in an
    /// internal node is replaced by the greatest key of the child left of it.
    #[verifier::rlimit(100)]
    pub fn delete(&mut self, value: &usize) -> (found: bool)
        requires
            old(self).wf(),
        ensures
            final(self).wf(),
            found == old(self)@.contains(*value),
            found ==> final(self)@.to_multiset() == old(self)@.to_multiset().remove(
                *value,
            ),
            !found ==> final(self)@ == old(self)@,
            final(self).height() <= old(self).height(),
            old(self).size >= 2 ==> final(self).height() == old(self).height() && final(self).size >= 1 && final(self).size + 1 >= old(self).size && final(self).size <= old(self).size,
        decreases old(self).height(),
    {
        let pos0 = self.find_index(value);
        if self.is_leaf() {
            if pos0 < self.size && self.data[pos0].unwrap() == *value {
                let ghost t1 = *self;
                let _ = delete_from_array(&mut self.data, pos0);
                self.size = self.size - 1;
                proof {
                    let p = pos0 as int;
                    t1.lemma_leaf_from(0);
                    self.lemma_leaf_from(0);
                    assert forall|j: int, kk: int| 0 <= j < kk < self.size implies self.key_at(
                        j,
                    ) <= self.key_at(kk) by {
                        assert(j < p ==> self.key_at(j) == t1.key_at(j));
                        assert(j >= p ==> self.key_at(j) == t1.key_at(j + 1));
                        assert(kk < p ==> self.key_at(kk) == t1.key_at(kk));
                        assert(kk >= p ==> self.key_at(kk) == t1.key_at(kk + 1));
                    }
                    assert(self.wf());
                    assert forall|j: int| 0 <= j < self@.len() implies self@[j] == t1@.remove(
                        p,
                    )[j] by {
                        assert(self@[j] == self.key_at(j));
                        if j < p {
                            assert(t1@[j] == t1.key_at(j));
                        } else {
                            assert(t1@[j + 1] == t1.key_at(j + 1));
                        }
                    }
                    assert(self@ =~= t1@.remove(p));
                    assert(t1@[p] == *value);
                    assert(t1@.contains(*value));
                    vstd::seq_lib::to_multiset_remove(t1@, p);
                }
                return true;
            }
            proof {
                self.lemma_leaf_from(0);
                assert forall|k: int| 0 <= k < self@.len() implies self@[k] != *value by {
                    assert(self@[k] == self.key_at(k));
                    if k >= pos0 {
                        assert(self.key_at(pos0 as int) <= self.key_at(k));
                    }
                }
            }
            return false;
        }
        let mut pos = pos0;
        let cs = self.children[pos].as_ref().unwrap().size;
        if cs == 1 {
            let will_shrink = self.size == 1 && self.children[1 - pos].as_ref().unwrap().size
                == 1;
            proof {
                assert(will_shrink == old(self).balance_shrinks(pos as int));
            }
            self.delete_balance(pos, Ghost(*value as int));
            if will_shrink {
                let ghost tb = *self;
                proof {
                    assert(tb@ == old(self)@);
                    assert(tb.height() < old(self).height());
                }
                let r = self.delete(value);
                return r;
            }
            pos = self.find_index(value);
            proof {
                assert(self.seeks_to(*value as int, pos as int));
                assert(self.child(pos as int).size >= 2);
            }
        }
        let ghost t1 = *self;
        proof {
            assert(t1.wf());
            assert(!t1.is_leaf_spec());
            assert(t1@ == old(self)@);
            assert(t1.height() == old(self).height());
            assert(t1.child(pos as int).size >= 2);
            assert(t1.child(pos as int).wf());
            assert(t1.seeks_to(*value as int, pos as int));
            assert(t1.child(pos as int).height() + 1 == t1.height());
        }
        if pos < self.size && self.data[pos].unwrap() == *value {
            let copt = self.children[pos].take();
            let mut node = *copt.unwrap();
            let m = node.remove_max();
            let ghost c2 = node;
            self.children[pos] = Some(Box::new(node));
            self.data[pos] = Some(m);
            proof {
                broadcast use vstd::seq_lib::group_to_multiset_ensures;
                broadcast use vstd::multiset::group_multiset_axioms;

                let t2 = *self;
                let p = pos as int;
                let c = t1.child(p);
                c.lemma_wf_sorted();
                assert(t1.key_at(p) == *value);
                // the whole node splits the same way on both sides
                t1.lemma_decompose(p);
                t2.lemma_decompose(p);
                Self::lemma_frame_pre(t1, t2, p);
                if p + 1 <= t1.size {
                    Self::lemma_frame_from(t1, t2, p + 1);
                }
                let pre = t1.pre_at(p);
                let post1 = t1.seq_from(p + 1);
                assert(t1.post_at(p) == seq![*value] + post1);
                assert(t2.post_at(p) == seq![m] + post1);
                // the found key occurs in the contents
                assert(t1@ =~= pre + c@ + (seq![*value] + post1));
                assert(t1@[pre.len() + c@.len() as int] == *value);
                assert(t1@.contains(*value));
                // one occurrence of the value leaves the multiset
                vstd::seq_lib::to_multiset_remove(c@, c@.len() - 1);
                assert(c@.drop_last() =~= c@.remove(c@.len() - 1));
                assert(c2@.to_multiset() == c@.to_multiset().remove(m));
                lemma_concat3_ms(pre, c@, seq![*value] + post1);
                lemma_concat3_ms(pre, c2@, seq![m] + post1);
                vstd::seq_lib::lemma_multiset_commutative(seq![*value], post1);
                vstd::seq_lib::lemma_multiset_commutative(seq![m], post1);
                assert(seq![*value] =~= Seq::<usize>::empty().push(*value));
                assert(seq![m] =~= Seq::<usize>::empty().push(m));
                assert(seq![*value].to_multiset() =~= vstd::multiset::Multiset::<usize>::empty().insert(
                    *value,
                ));
                assert(seq![m].to_multiset() =~= vstd::multiset::Multiset::<usize>::empty().insert(m));
                assert(c@.to_multiset().count(m) >= 1);
                assert(t2@.to_multiset() =~= t1@.to_multiset().remove(*value));
                // the replaced key keeps the node well-formed
                assert(m == c@.last());
                assert forall|kk: int| 0 <= kk < c2@.len() implies #[trigger] c2@[kk]
                    <= m by {
                    assert(c2@[kk] == c@[kk]);
                }
                assert(all_le(c2@, m));
                assert(all_le(c@, t1.key_at(p)));
                assert(m <= t1.key_at(p));
                if p >= 1 {
                    assert(all_ge(c@, t1.key_at(p - 1)));
                    assert(m >= t1.key_at(p - 1));
                    assert forall|kk: int| 0 <= kk < c2@.len() implies #[trigger] c2@[kk]
                        >= t1.key_at(p - 1) by {
                        assert(c2@[kk] == c@[kk]);
                    }
                }
                Self::lemma_wf_child_and_key_replaced(t1, t2, p);
            }
            return true;
        }
        let copt = self.children[pos].take();
        let mut node = *copt.unwrap();
        let r = node.delete(value);
        let ghost c2 = node;
        self.children[pos] = Some(Box::new(node));
        proof {
            broadcast use vstd::seq_lib::group_to_multiset_ensures;
            broadcast use vstd::multiset::group_multiset_axioms;

            let t2 = *self;
            let p = pos as int;
            let c = t1.child(p);
            assert forall|j: int| 0 <= j < 4 && j != p implies t1.children@[j]
                == t2.children@[j] by {}
            assert(t2.child(p) == c2);
            Self::lemma_frame(t1, t2, p);
            let pre = t1.pre_at(p);
            let post = t1.post_at(p);
            lemma_concat3_ms(pre, c@, post);
            lemma_concat3_ms(pre, c2@, post);
            t1.lemma_contains_in_child(*value, p);
            assert(r == t1@.contains(*value));
            if r {
                assert(t2@.to_multiset() =~= t1@.to_multiset().remove(*value));
                lemma_bounds_remove_ms(c@, c2@, *value);
            } else {
                assert(c2@ == c@);
                assert(t2@ =~= t1@);
                assert(t2@ == t1@);
            }
            if p >= 1 {
                assert(all_ge(c@, t1.key_at(p - 1)));
            }
            if p < t1.size {
                assert(all_le(c@, t1.key_at(p)));
            }
            Self::lemma_wf_child_replaced(t1, t2, p);
        }
        r
    }

    /// Inserts every value of `values` into the tree, in the given order.
    pub fn append(&mut self, values: Vec<usize>)
        requires
            old(self).wf(),
        ensures
            final(self).wf(),
            final(self)@.to_multiset() == old(self)@.to_multiset().add(
                values@.to_multiset(),
            ),
    {
        proof {
            broadcast use vstd::seq_lib::group_to_multiset_ensures;
            broadcast use vstd::multiset::group_multiset_axioms;

            assert(values@.take(0).to_multiset() =~= vstd::multiset::Multiset::<
                usize,
            >::empty());
            assert(self@.to_multiset() =~= old(self)@.to_multiset().add(
                values@.take(0).to_multiset(),
            ));
        }
        let mut i: usize = 0;
        while i < values.len()
            invariant
                self.wf(),
                i <= values@.len(),
                self@.to_multiset() == old(self)@.to_multiset().add(
                    values@.take(i as int).to_multiset(),
                ),
            decreases values@.len() - i,
        {
            let v = values[i];
            self.insert(v);
            proof {
                broadcast use vstd::seq_lib::group_to_multiset_ensures;
                broadcast use vstd::multiset::group_multiset_axioms;

                assert(values@.take(i + 1) =~= values@.take(i as int).push(v));
                assert(values@.take(i + 1).to_multiset() =~= values@.take(
                    i as int,
                ).to_multiset().insert(v));
                assert(self@.to_multiset() =~= old(self)@.to_multiset().add(
                    values@.take(i + 1).to_multiset(),
                ));
            }
            i = i + 1;
        }
        proof {
            assert(values@.take(values@.len() as int) =~= values@);
        }
    }

    /// After an insertion of `x`, a lookup of `x` succeeds: contents that
    /// grew by one copy of `x` contain `x`.
    pub proof fn lemma_inserted_is_found(s1: Seq<usize>, s2: Seq<usize>, x: usize)
        requires
            s2.to_multiset() == s1.to_multiset().insert(x),
        ensures
            s2.contains(x),
    {
        broadcast use vstd::seq_lib::group_to_multiset_ensures;
        broadcast use vstd::multiset::group_multiset_axioms;

        assert(s2.to_multiset().count(x) > 0);
    }

    /// A stored value keeps being found until a matching deletion: removing
    /// one copy of a different value `y` cannot make `x` disappear.
    pub proof fn lemma_found_until_deleted(s1: Seq<usize>, s2: Seq<usize>, x: usize, y: usize)
        requires
            s2.to_multiset() == s1.to_multiset().remove(y),
            s1.contains(x),
            x != y,
        ensures
            s2.contains(x),
    {
        broadcast use vstd::seq_lib::group_to_multiset_ensures;
        broadcast use vstd::multiset::group_multiset_axioms;

        assert(s1.to_multiset().count(x) > 0);
        assert(s2.to_multiset().count(x) == s1.to_multiset().count(x));
    }

    /// Deleting `x` right after inserting it succeeds and restores the old
    /// multiset of contents, so a further lookup of `x` reflects exactly the
    /// multiplicity that was stored before.
    pub proof fn lemma_delete_after_insert(
        s1: Seq<usize>,
        s2: Seq<usize>,
        s3: Seq<usize>,
        x: usize,
    )
        requires
            s2.to_multiset() == s1.to_multiset().insert(x),
            s3.to_multiset() == s2.to_multiset().remove(x),
        ensures
            s2.contains(x),
            s3.to_multiset() == s1.to_multiset(),
            s3.contains(x) <==> s1.contains(x),
    {
        broadcast use vstd::seq_lib::group_to_multiset_ensures;
        broadcast use vstd::multiset::group_multiset_axioms;

        assert(s2.to_multiset().count(x) > 0);
        assert(s3.to_multiset() =~= s1.to_multiset());
        assert(s3.contains(x) <==> s3.to_multiset().count(x) > 0);
        assert(s1.contains(x) <==> s1.to_multiset().count(x) > 0);
    }

    /// Returns the tightest stored bracket around `value`: the greatest
    /// stored key at most `value` and the least stored key at least `value`,
    /// each absent when no stored key qualifies. A stored `value` returns
    /// itself on both sides.
    #[verifier::rlimit(100)]
    pub fn search_and_get_range(&self, value: &usize) -> (r: (Option<usize>, Option<
        usize,
    >))
        requires
            self.wf(),
        ensures
            r.0 is Some ==> self@.contains(r.0->0) && r.0->0 <= *value,
            r.0 is None ==> forall|i: int| 0 <= i < self@.len() ==> #[trigger] self@[i]
                > *value,
            r.0 is Some ==> forall|i: int|
                0 <= i < self@.len() && #[trigger] self@[i] <= *value ==> self@[i] <= r.0->0,
            r.1 is Some ==> self@.contains(r.1->0) && r.1->0 >= *value,
            r.1 is None ==> forall|i: int| 0 <= i < self@.len() ==> #[trigger] self@[i]
                < *value,
            r.1 is Some ==> forall|i: int|
                0 <= i < self@.len() && #[trigger] self@[i] >= *value ==> self@[i] >= r.1->0,
        decreases self.height(),
    {
        if self.is_empty() {
            return (None, None);
        }
        if self.is_leaf() {
            proof {
                self.lemma_leaf_from(0);
            }
            let mut left: Option<usize> = None;
            let mut i: usize = 0;
            while i < self.size
                invariant
                    self.wf(),
                    self.is_leaf_spec(),
                    i <= self.size,
                    self@.len() == self.size,
                    forall|j: int| 0 <= j < self.size ==> self@[j] == self.key_at(j),
                    forall|j: int| 0 <= j < i ==> self.key_at(j) < *value,
                    i > 0 ==> left == Some(self.key_at(i - 1)),
                    i == 0 ==> left is None,
                decreases self.size - i,
            {
                let d = self.data[i].unwrap();
                if d >= *value {
                    let l2 = if d == *value {
                        Some(d)
                    } else {
                        left
                    };
                    proof {
                        assert(self.key_at(i as int) == d);
                        assert(self@[i as int] == d);
                        assert forall|j: int|
                            0 <= j < self@.len() && #[trigger] self@[j] >= *value implies self@[j]
                            >= d by {
                            if j < i {
                                assert(self@[j] < *value);
                            } else {
                                assert(self.key_at(i as int) <= self.key_at(j));
                            }
                        }
                        assert forall|j: int|
                            0 <= j < self@.len() && #[trigger] self@[j] <= *value implies (
                        l2 is Some && self@[j] <= l2->0) by {
                            if j >= i && d != *value {
                                assert(self.key_at(i as int) <= self.key_at(j));
                            }
                        }
                    }
                    return (l2, Some(d));
                }
                left = Some(d);
                i = i + 1;
            }
            proof {
                assert forall|j: int| 0 <= j < self@.len() implies #[trigger] self@[j]
                    < *value by {}
            }
            return (left, None);
        }
        let mut i: usize = 0;
        while i < self.size
            invariant
                self.wf(),
                !self.is_leaf_spec(),
                i <= self.size,
                forall|j: int| 0 <= j < i ==> self.key_at(j) <= *value,
            decreases self.size - i,
        {
            let d = self.data[i].unwrap();
            if *value < d {
                if i > 0 && self.data[i - 1].unwrap() == *value {
                    proof {
                        self.lemma_key_in_view(i as int - 1);
                    }
                    return (Some(*value), Some(*value));
                }
                proof {
                    self.lemma_decompose(i as int);
                    self.lemma_wf_sorted();
                    assert(self.child(i as int).height() < self.height());
                }
                let ans = self.children[i].as_ref().unwrap().search_and_get_range(value);
                let a0 = if ans.0.is_none() && i > 0 {
                    Some(self.data[i - 1].unwrap())
                } else {
                    ans.0
                };
                let a1 = if ans.1.is_none() {
                    Some(d)
                } else {
                    ans.1
                };
                proof {
                    let p = i as int;
                    let pre = self.pre_at(p);
                    let cs = self.child(p)@;
                    let post = self.post_at(p);
                    assert(self@ =~= pre + cs + post);
                    if p > 0 {
                        self.lemma_pre_all_le(p);
                        assert(pre[pre.len() - 1] == self.key_at(p - 1));
                    }
                    self.lemma_post_all_ge(p);
                    assert(post[0] == self.key_at(p));
                    assert forall|j: int|
                        0 <= j < self@.len() && #[trigger] self@[j] <= *value implies (
                    a0 is Some && self@[j] <= a0->0) by {
                        if j < pre.len() {
                            assert(self@[j] == pre[j]);
                            assert(self@[j] <= self.key_at(p - 1));
                        } else if j < pre.len() + cs.len() {
                            assert(self@[j] == cs[j - pre.len()]);
                        } else {
                            assert(self@[j] == post[j - pre.len() - cs.len()]);
                            assert(self@[j] >= self.key_at(p));
                        }
                        if ans.0 is Some {
                            assert(all_ge(cs, self.key_at(p - 1)) || p == 0);
                        }
                    }
                    assert forall|j: int|
                        0 <= j < self@.len() && #[trigger] self@[j] >= *value implies (
                    a1 is Some && self@[j] >= a1->0) by {
                        if j < pre.len() {
                            assert(self@[j] == pre[j]);
                            assert(self@[j] <= self.key_at(p - 1));
                        } else if j < pre.len() + cs.len() {
                            assert(self@[j] == cs[j - pre.len()]);
                        } else {
                            assert(self@[j] == post[j - pre.len() - cs.len()]);
                            assert(self@[j] >= self.key_at(p));
                        }
                    }
                    if a0 is Some {
                        if ans.0 is Some {
                            let w = choose|w: int|
                                0 <= w < cs.len() && cs[w] == ans.0->0;
                            assert(self@[pre.len() + w] == a0->0);
                        } else {
                            assert(self@[pre.len() - 1] == self.key_at(p - 1));
                        }
                        assert(self@.contains(a0->0));
                    }
                    if a1 is Some {
                        if ans.1 is Some {
                            let w = choose|w: int|
                                0 <= w < cs.len() && cs[w] == ans.1->0;
                            assert(self@[pre.len() + w] == a1->0);
                        } else {
                            assert(self@[pre.len() + cs.len() as int] == self.key_at(p));
                        }
                        assert(self@.contains(a1->0));
                    }
                    if a0 is None {
                        assert forall|j: int| 0 <= j < self@.len() implies #[trigger] self@[j]
                            > *value by {
                            if j < pre.len() {
                                assert(p == 0);
                            } else if j < pre.len() + cs.len() {
                                assert(self@[j] == cs[j - pre.len()]);
                            } else {
                                assert(self@[j] >= self.key_at(p));
                            }
                        }
                    }
                }
                return (a0, a1);
            }
            i = i + 1;
        }
        if self.data[self.size - 1].unwrap() == *value {
            proof {
                self.lemma_key_in_view(self.size as int - 1);
            }
            return (Some(*value), Some(*value));
        }
        proof {
            self.lemma_decompose(self.size as int);
            self.lemma_wf_sorted();
            assert(self.child(self.size as int).height() < self.height());
        }
        let ans = self.children[self.size].as_ref().unwrap().search_and_get_range(value);
        let a0 = if ans.0.is_none() {
            Some(self.data[self.size - 1].unwrap())
        } else {
            ans.0
        };
        proof {
            let p = self.size as int;
            let pre = self.pre_at(p);
            let cs = self.child(p)@;
            assert(self@ =~= pre + cs + self.post_at(p));
            assert(self.post_at(p) == Seq::<usize>::empty());
            self.lemma_pre_all_le(p);
            assert(pre[pre.len() - 1] == self.key_at(p - 1));
            assert(self.key_at(p - 1) <= *value);
            assert forall|j: int|
                0 <= j < self@.len() && #[trigger] self@[j] <= *value implies (a0 is Some
                && self@[j] <= a0->0) by {
                if j < pre.len() {
                    assert(self@[j] == pre[j]);
                    assert(self@[j] <= self.key_at(p - 1));
                } else {
                    assert(self@[j] == cs[j - pre.len()]);
                }
                if ans.0 is Some {
                    assert(all_ge(cs, self.key_at(p - 1)));
                }
            }
            assert forall|j: int|
                0 <= j < self@.len() && #[trigger] self@[j] >= *value implies (ans.1 is Some
                && self@[j] >= ans.1->0) by {
                if j < pre.len() {
                    assert(self@[j] == pre[j]);
                    assert(self@[j] <= self.key_at(p - 1));
                } else {
                    assert(self@[j] == cs[j - pre.len()]);
                }
            }
            if a0 is Some {
                if ans.0 is Some {
                    let w = choose|w: int| 0 <= w < cs.len() && cs[w] == ans.0->0;
                    assert(self@[pre.len() + w] == a0->0);
                } else {
                    assert(self@[pre.len() - 1] == self.key_at(p - 1));
                }
                assert(self@.contains(a0->0));
            }
            if ans.1 is Some {
                let w = choose|w: int| 0 <= w < cs.len() && cs[w] == ans.1->0;
                assert(self@[pre.len() + w] == ans.1->0);
                assert(self@.contains(ans.1->0));
            }
            if ans.1 is None {
                assert forall|j: int| 0 <= j < self@.len() implies #[trigger] self@[j]
                    < *value by {
                    if j < pre.len() {
                        assert(self@[j] <= self.key_at(p - 1));
                    } else {
                        assert(self@[j] == cs[j - pre.len()]);
                    }
                }
            }
        }
        return (a0, ans.1);
    }

    proof fn lemma_seq_from_len(self, i: int)


        requires
            self.wf(),
            0 <= i <= self.size,
        ensures
            self.seq_from(i).len() >= self.size - i,
            self.is_leaf_spec() ==> self.seq_from(i).len() == self.size - i,
        decreases self.size - i,
    {
        if i < self.size {
            self.lemma_seq_from_len(i + 1);
        }
    }
}

} // verus!
