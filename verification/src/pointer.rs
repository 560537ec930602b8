use crate::alphabet::{contains_symbol, sorted_alphabet, strictly_increasing};
use crate::bits::{
    lemma_count_contains, lemma_kth_unique, lemma_count_take_le,
    bit_seq, bitvec_clone, bitvec_get, bitvec_len, bitvec_new, bitvec_push, count,
    is_kth, lemma_count_le_len, lemma_count_prefix_mono, lemma_count_repeat, lemma_count_step,
    lemma_take_all, rank_select_new, rank_select_rank_0, rank_select_rank_1, rank_select_select_0,
    rank_select_select_1, BitVector,
};
use crate::partition::{
    interleave, keep, lemma_interleave_count_ones, lemma_interleave_count_zeros,
    lemma_interleave_kth_ones, lemma_interleave_kth_zeros, lemma_keep_const, lemma_keep_ext,
    lemma_keep_keep, lemma_keep_push, lemma_keep_satisfies, lemma_partition, in_seq,
    lemma_keep_all, lemma_keep_prefix, both, negate,
};
use crate::symbol::{above, at_most, midpoint, midpoint_u64, Symbol};
use crate::traits::{Node, WaveletTree};
use vstd::prelude::*;

verus! {

/// One node of a pointer-based wavelet tree.
///
/// A node covers the symbols from `min_element` to `max_element`. An inner
/// node stores one bit per symbol of its part of the sequence: clear when
/// the symbol is at most the midpoint of `min_element` and `max_element`
/// (it continues in `left_tree`), set otherwise (it continues in
/// `right_tree`). A leaf covers a single symbol and stores no bits.
pub struct PointerWaveletTreeNode<T> {
    pub min_element: T,
    pub max_element: T,
    pub left_tree: Option<Box<PointerWaveletTreeNode<T>>>,
    pub right_tree: Option<Box<PointerWaveletTreeNode<T>>>,
    pub bits: BitVector,
}

/// A wavelet tree whose nodes are linked by pointers.
pub struct PointerWaveletTree<T> {
    /// The distinct symbols of the stored sequence, in increasing order.
    pub alphabet: Vec<T>,
    /// The root node; absent for an empty sequence.
    pub root: Option<PointerWaveletTreeNode<T>>,
}

impl<T: Symbol> PointerWaveletTreeNode<T> {
    /// The node has no children.
    pub open spec fn leaf(self) -> bool {
        self.left_tree is None && self.right_tree is None
    }

    /// The largest value that continues to the left child.
    pub open spec fn split(self) -> int {
        midpoint(self.min_element.value(), self.max_element.value())
    }

    /// Structural invariant: a leaf covers one symbol and has no bits; an
    /// inner node has two children that split its symbol range at its
    /// midpoint, and each inner child has one bit per bit of the side of
    /// the parent that leads to it.
    pub open spec fn wf(self) -> bool
        decreases self,
    {
        match self.left_tree {
            None => self.right_tree is None && self.min_element == self.max_element
                && bit_seq(self.bits).len() == 0,
            Some(l) => match self.right_tree {
                None => false,
                Some(r) => {
                    let b = bit_seq(self.bits);
                    &&& self.min_element.value() < self.max_element.value()
                    &&& l.min_element == self.min_element
                    &&& r.max_element == self.max_element
                    &&& l.max_element.value() <= self.split()
                    &&& self.split() < r.min_element.value()
                    &&& b.len() <= u32::MAX
                    &&& (l.leaf() || bit_seq(l.bits).len() == count(b, false))
                    &&& (r.leaf() || bit_seq(r.bits).len() == count(b, true))
                    &&& l.wf()
                    &&& r.wf()
                },
            },
        }
    }

    /// The sequence that the subtree stores, where a leaf stands for `n`
    /// copies of its symbol; an inner node's sequence has one symbol per
    /// bit and does not depend on `n`.
    pub open spec fn seq_of_len(self, n: nat) -> Seq<T>
        decreases self,
    {
        match self.left_tree {
            None => Seq::new(n, |i: int| self.min_element),
            Some(l) => match self.right_tree {
                None => Seq::new(n, |i: int| self.min_element),
                Some(r) => {
                    let b = bit_seq(self.bits);
                    interleave(b, l.seq_of_len(count(b, false)), r.seq_of_len(count(b, true)))
                },
            },
        }
    }

    /// The sequence that the node stores: one symbol per bit (empty for a leaf).
    pub open spec fn node_seq(self) -> Seq<T> {
        self.seq_of_len(bit_seq(self.bits).len())
    }

    /// Descending by `e`'s value from this node ends at a leaf whose symbol is `e`.
    pub open spec fn routes(self, e: T) -> bool
        decreases self,
    {
        match self.left_tree {
            None => e == self.min_element,
            Some(l) => match self.right_tree {
                None => e == self.min_element,
                Some(r) => if e.value() <= self.split() {
                    l.routes(e)
                } else {
                    r.routes(e)
                },
            },
        }
    }

    /// The subtree is the one built from the increasing symbols `a` over the
    /// sequence `s`: its bits mark which of the elements of `s` that belong
    /// to `a` lie above the midpoint of `a`'s extremes, and its children are
    /// built from the symbols on either side of that midpoint.
    pub open spec fn shaped(self, a: Seq<T>, s: Seq<T>) -> bool
        decreases self,
    {
        if a.len() <= 1 {
            &&& a.len() == 1
            &&& self.leaf()
            &&& self.min_element == a[0]
            &&& self.max_element == a[0]
            &&& bit_seq(self.bits).len() == 0
        } else {
            let m = midpoint(a[0].value(), a.last().value());
            let lc = keep(a, at_most::<T>(m)).len() as int;
            &&& self.min_element == a[0]
            &&& self.max_element == a.last()
            &&& bit_seq(self.bits) == keep(s, in_seq(a)).map_values(above::<T>(m))
            &&& match self.left_tree {
                Some(l) => l.shaped(a.take(lc), s),
                None => false,
            }
            &&& match self.right_tree {
                Some(r) => r.shaped(a.skip(lc), s),
                None => false,
            }
        }
    }

    /// Length of a stored sequence.
    pub proof fn lemma_seq_len(self, n: nat)
        requires
            self.wf(),
        ensures
            self.seq_of_len(n).len() == (if self.leaf() {
                n
            } else {
                bit_seq(self.bits).len()
            }),
            !self.leaf() ==> self.seq_of_len(n) == self.node_seq(),
    {
    }

    /// The inner node's sequence, interleaved from its children's.
    pub proof fn lemma_children_seqs(self)
        requires
            self.wf(),
            !self.leaf(),
        ensures
            self.left_tree->0.seq_of_len(count(bit_seq(self.bits), false)).len() == count(
                bit_seq(self.bits),
                false,
            ),
            self.right_tree->0.seq_of_len(count(bit_seq(self.bits), true)).len() == count(
                bit_seq(self.bits),
                true,
            ),
            self.node_seq() == interleave(
                bit_seq(self.bits),
                self.left_tree->0.seq_of_len(count(bit_seq(self.bits), false)),
                self.right_tree->0.seq_of_len(count(bit_seq(self.bits), true)),
            ),
    {
        let l = self.left_tree->0;
        let r = self.right_tree->0;
        l.lemma_seq_len(count(bit_seq(self.bits), false));
        r.lemma_seq_len(count(bit_seq(self.bits), true));
    }

    /// Every stored symbol lies between the node's extremes.
    pub proof fn lemma_seq_bounds(self, n: nat)
        requires
            self.wf(),
        ensures
            forall|i: int|
                0 <= i < self.seq_of_len(n).len() ==> self.min_element.value()
                    <= #[trigger] self.seq_of_len(n)[i].value() <= self.max_element.value(),
        decreases self,
    {
        if !self.leaf() {
            let b = bit_seq(self.bits);
            let l = self.left_tree->0;
            let r = self.right_tree->0;
            self.lemma_children_seqs();
            l.lemma_seq_bounds(count(b, false));
            r.lemma_seq_bounds(count(b, true));
            let ls = l.seq_of_len(count(b, false));
            let rs = r.seq_of_len(count(b, true));
            assert forall|i: int| 0 <= i < self.seq_of_len(n).len() implies self.min_element.value()
                <= #[trigger] self.seq_of_len(n)[i].value() <= self.max_element.value() by {
                lemma_take_all(b);
                if b[i] {
                    lemma_count_step(b, true, i);
                    lemma_count_prefix_mono(b, true, i + 1, b.len() as int);
                    assert(self.seq_of_len(n)[i] == rs[count(b.take(i), true) as int]);
                } else {
                    lemma_count_step(b, false, i);
                    lemma_count_prefix_mono(b, false, i + 1, b.len() as int);
                    assert(self.seq_of_len(n)[i] == ls[count(b.take(i), false) as int]);
                }
            }
        }
    }
}

impl<T: Symbol> PointerWaveletTreeNode<T> {
    /// Under the invariant, a node is a leaf exactly when its extremes agree.
    fn extremes_equal(&self) -> (r: bool)
        requires
            self.wf(),
        ensures
            r == self.leaf(),
    {
        self.min_element.to_u64() == self.max_element.to_u64()
    }

    fn access_rec(&self, index: u32) -> (r: T)
        requires
            self.wf(),
            self.leaf() || index < bit_seq(self.bits).len(),
        ensures
            r == (if self.leaf() {
                self.min_element
            } else {
                self.node_seq()[index as int]
            }),
        decreases self,
    {
        if self.extremes_equal() {
            return self.min_element;
        }
        let ghost b = bit_seq(self.bits);
        proof {
            self.lemma_children_seqs();
            lemma_count_le_len(b.take(index + 1), false);
            lemma_count_le_len(b.take(index + 1), true);
            lemma_take_all(b);
        }
        let rs = rank_select_new(bitvec_clone(&self.bits), 1);
        if !bitvec_get(&self.bits, index as u64) {
            let c = rank_select_rank_0(&rs, index as u64).unwrap();
            proof {
                lemma_count_step(b, false, index as int);
                lemma_count_prefix_mono(b, false, index + 1, b.len() as int);
            }
            let result = c as u32 - 1;
            let l = self.left_tree.as_ref().unwrap();
            proof {
                l.lemma_seq_len(count(b, false));
            }
            l.access_rec(result)
        } else {
            let c = rank_select_rank_1(&rs, index as u64).unwrap();
            proof {
                lemma_count_step(b, true, index as int);
                lemma_count_prefix_mono(b, true, index + 1, b.len() as int);
            }
            let result = c as u32 - 1;
            let r = self.right_tree.as_ref().unwrap();
            proof {
                r.lemma_seq_len(count(b, true));
            }
            r.access_rec(result)
        }
    }

    /// The clear side of an inner node holds no symbol above its split, and
    /// the set side none at or below it.
    proof fn lemma_sides(self)
        requires
            self.wf(),
            !self.leaf(),
        ensures
            forall|j: int|
                0 <= j < self.left_tree->0.seq_of_len(count(bit_seq(self.bits), false)).len()
                    ==> #[trigger] self.left_tree->0.seq_of_len(
                    count(bit_seq(self.bits), false),
                )[j].value() <= self.split(),
            forall|j: int|
                0 <= j < self.right_tree->0.seq_of_len(count(bit_seq(self.bits), true)).len()
                    ==> #[trigger] self.right_tree->0.seq_of_len(
                    count(bit_seq(self.bits), true),
                )[j].value() > self.split(),
    {
        let b = bit_seq(self.bits);
        self.left_tree->0.lemma_seq_bounds(count(b, false));
        self.right_tree->0.lemma_seq_bounds(count(b, true));
    }

    /// A leaf's part of the sequence, cut to `c` symbols, holds `c` copies of its symbol.
    proof fn lemma_leaf_prefix(self, n: nat, c: int)
        requires
            self.wf(),
            self.leaf(),
            0 <= c <= n,
        ensures
            self.seq_of_len(n).take(c) == Seq::new(c as nat, |i: int| self.min_element),
            count(self.seq_of_len(n).take(c), self.min_element) == c,
            count(self.seq_of_len(n), self.min_element) == n,
    {
        assert(self.seq_of_len(n).take(c) =~= Seq::new(c as nat, |i: int| self.min_element));
        lemma_count_repeat(c as nat, self.min_element);
        lemma_count_repeat(n, self.min_element);
    }

    fn rank_rec(&self, element: T, index: u32) -> (r: u32)
        requires
            self.wf(),
            self.routes(element),
            self.leaf() ==> index < u32::MAX,
            !self.leaf() ==> index < bit_seq(self.bits).len(),
        ensures
            r == (if self.leaf() {
                index + 1
            } else {
                count(self.node_seq().take(index + 1), element) as int
            }),
        decreases self,
    {
        if self.extremes_equal() {
            return index + 1;
        }
        let ghost b = bit_seq(self.bits);
        proof {
            self.lemma_children_seqs();
            self.lemma_sides();
            lemma_take_all(b);
        }
        let rs = rank_select_new(bitvec_clone(&self.bits), 1);
        let mid = midpoint_u64(self.min_element.to_u64(), self.max_element.to_u64());
        if element.to_u64() <= mid {
            let ghost ls = self.left_tree->0.seq_of_len(count(b, false));
            let ghost rs_ = self.right_tree->0.seq_of_len(count(b, true));
            proof {
                lemma_interleave_count_zeros(b, ls, rs_, element, index + 1);
                lemma_count_prefix_mono(b, false, index + 1, b.len() as int);
                lemma_count_le_len(b.take(index + 1), false);
            }
            let c = rank_select_rank_0(&rs, index as u64).unwrap();
            if c == 0 {
                return 0;
            }
            let l = self.left_tree.as_ref().unwrap();
            proof {
                l.lemma_seq_len(count(b, false));
                if l.leaf() {
                    l.lemma_leaf_prefix(count(b, false), c as int);
                }
            }
            let res = l.rank_rec(element, (c - 1) as u32);
            proof {
                assert(l.routes(element));
                assert(c == count(b.take(index + 1), false));
                assert(count(self.node_seq().take(index + 1), element) == count(ls.take(c as int), element));
                if l.leaf() {
                    assert(res == c);
                } else {
                    assert(ls == l.node_seq());
                }
            }
            res
        } else {
            let ghost ls = self.left_tree->0.seq_of_len(count(b, false));
            let ghost rs_ = self.right_tree->0.seq_of_len(count(b, true));
            proof {
                lemma_interleave_count_ones(b, ls, rs_, element, index + 1);
                lemma_count_prefix_mono(b, true, index + 1, b.len() as int);
                lemma_count_le_len(b.take(index + 1), true);
            }
            let c = rank_select_rank_1(&rs, index as u64).unwrap();
            if c == 0 {
                return 0;
            }
            let r = self.right_tree.as_ref().unwrap();
            proof {
                r.lemma_seq_len(count(b, true));
                if r.leaf() {
                    r.lemma_leaf_prefix(count(b, true), c as int);
                }
            }
            let res = r.rank_rec(element, (c - 1) as u32);
            proof {
                assert(r.routes(element));
                assert(c == count(b.take(index + 1), true));
                assert(count(self.node_seq().take(index + 1), element) == count(rs_.take(c as int), element));
                if r.leaf() {
                    assert(res == c);
                } else {
                    assert(rs_ == r.node_seq());
                }
            }
            res
        }
    }

    fn select_rec(&self, element: T, index: u32) -> (r: u32)
        requires
            self.wf(),
            self.routes(element),
            index >= 1,
            !self.leaf() ==> index <= count(self.node_seq(), element),
        ensures
            self.leaf() ==> r == index - 1,
            !self.leaf() ==> is_kth(self.node_seq(), element, index as int, r as int),
        decreases self,
    {
        if self.extremes_equal() {
            return index - 1;
        }
        let ghost b = bit_seq(self.bits);
        proof {
            self.lemma_children_seqs();
            self.lemma_sides();
            lemma_take_all(b);
            lemma_take_all(self.node_seq());
            lemma_count_le_len(b, false);
            lemma_count_le_len(b, true);
        }
        let rs = rank_select_new(bitvec_clone(&self.bits), 1);
        let mid = midpoint_u64(self.min_element.to_u64(), self.max_element.to_u64());
        if element.to_u64() <= mid {
            let ghost ls = self.left_tree->0.seq_of_len(count(b, false));
            let ghost rs_ = self.right_tree->0.seq_of_len(count(b, true));
            let l = self.left_tree.as_ref().unwrap();
            proof {
                lemma_interleave_count_zeros(b, ls, rs_, element, b.len() as int);
                lemma_take_all(ls);
                l.lemma_seq_len(count(b, false));
                assert(count(self.node_seq(), element) == count(ls, element));
                assert(l.routes(element));
                if l.leaf() {
                    assert(element == l.min_element);
                    l.lemma_leaf_prefix(count(b, false), 0);
                    assert(count(ls, element) == count(b, false));
                    l.lemma_leaf_prefix(count(b, false), index - 1);
                }
            }
            let sel = l.select_rec(element, index);
            let res = rank_select_select_0(&rs, (sel + 1) as u64);
            let p = res.unwrap();
            proof {
                lemma_interleave_kth_zeros(b, ls, rs_, element, index as int, sel as int, p as int);
            }
            p as u32
        } else {
            let ghost ls = self.left_tree->0.seq_of_len(count(b, false));
            let ghost rs_ = self.right_tree->0.seq_of_len(count(b, true));
            let r = self.right_tree.as_ref().unwrap();
            proof {
                lemma_interleave_count_ones(b, ls, rs_, element, b.len() as int);
                lemma_take_all(rs_);
                r.lemma_seq_len(count(b, true));
                assert(count(self.node_seq(), element) == count(rs_, element));
                assert(r.routes(element));
                if r.leaf() {
                    assert(element == r.min_element);
                    r.lemma_leaf_prefix(count(b, true), 0);
                    assert(count(rs_, element) == count(b, true));
                    r.lemma_leaf_prefix(count(b, true), index - 1);
                }
            }
            let sel = r.select_rec(element, index);
            let res = rank_select_select_1(&rs, (sel + 1) as u64);
            let p = res.unwrap();
            proof {
                lemma_interleave_kth_ones(b, ls, rs_, element, index as int, sel as int, p as int);
            }
            p as u32
        }
    }

    /// The stored sequence, or the single symbol of a leaf.
    fn to_vec_rec(&self) -> (v: Vec<T>)
        requires
            self.wf(),
        ensures
            v@ == (if self.leaf() {
                seq![self.min_element]
            } else {
                self.node_seq()
            }),
        decreases self,
    {
        if self.extremes_equal() {
            let mut v: Vec<T> = Vec::new();
            v.push(self.min_element);
            return v;
        }
        let ghost b = bit_seq(self.bits);
        let left = self.left_tree.as_ref().unwrap();
        let right = self.right_tree.as_ref().unwrap();
        let vecl = left.to_vec_rec();
        let vecr = right.to_vec_rec();
        let emptyl = left.extremes_equal();
        let emptyr = right.extremes_equal();
        let ghost ls = left.seq_of_len(count(b, false));
        let ghost rs = right.seq_of_len(count(b, true));
        proof {
            self.lemma_children_seqs();
            left.lemma_seq_len(count(b, false));
            right.lemma_seq_len(count(b, true));
            lemma_take_all(b);
        }
        let n = bitvec_len(&self.bits);
        let mut vec: Vec<T> = Vec::new();
        let mut il: usize = 0;
        let mut ir: usize = 0;
        let mut i: u64 = 0;
        while i < n
            invariant
                self.wf(),
                !self.leaf(),
                b == bit_seq(self.bits),
                n == b.len(),
                n <= u32::MAX,
                0 <= i <= n,
                il == count(b.take(i as int), false),
                ir == count(b.take(i as int), true),
                emptyl == left.leaf(),
                emptyr == right.leaf(),
                ls == left.seq_of_len(count(b, false)),
                rs == right.seq_of_len(count(b, true)),
                ls.len() == count(b, false),
                rs.len() == count(b, true),
                !left.leaf() ==> vecl@ == ls,
                !right.leaf() ==> vecr@ == rs,
                left.leaf() ==> ls == Seq::new(count(b, false), |j: int| left.min_element),
                right.leaf() ==> rs == Seq::new(count(b, true), |j: int| right.min_element),
                self.node_seq() == interleave(b, ls, rs),
                vec@ == self.node_seq().take(i as int),
            decreases n - i,
        {
            proof {
                lemma_count_step(b, true, i as int);
                lemma_count_step(b, false, i as int);
                lemma_count_prefix_mono(b, true, i + 1, b.len() as int);
                lemma_count_prefix_mono(b, false, i + 1, b.len() as int);
                lemma_take_all(b);
                lemma_count_le_len(b, true);
                lemma_count_le_len(b, false);
            }
            if bitvec_get(&self.bits, i) {
                if emptyr {
                    vec.push(right.min_element);
                } else {
                    vec.push(vecr[ir]);
                }
                ir = ir + 1;
            } else {
                if emptyl {
                    vec.push(left.min_element);
                } else {
                    vec.push(vecl[il]);
                }
                il = il + 1;
            }
            proof {
                assert(vec@ =~= self.node_seq().take(i + 1));
            }
            i = i + 1;
        }
        proof {
            lemma_take_all(self.node_seq());
        }
        vec
    }
}

impl<T: Symbol> Node<T> for PointerWaveletTreeNode<T> {
    open spec fn node_well_formed(&self) -> bool {
        self.wf()
    }

    open spec fn spec_is_leaf(&self) -> bool {
        self.leaf()
    }

    open spec fn node_access_requires(&self, index: u32) -> bool {
        self.leaf() || index < bit_seq(self.bits).len()
    }

    open spec fn node_access_spec(&self, index: u32) -> T {
        if self.leaf() {
            self.min_element
        } else {
            self.node_seq()[index as int]
        }
    }

    open spec fn node_rank_requires(&self, element: T, index: u32) -> bool {
        &&& self.routes(element)
        &&& self.leaf() ==> index < u32::MAX
        &&& !self.leaf() ==> index < bit_seq(self.bits).len()
    }

    open spec fn node_rank_spec(&self, element: T, index: u32) -> int {
        if self.leaf() {
            index + 1
        } else {
            count(self.node_seq().take(index + 1), element) as int
        }
    }

    open spec fn node_select_requires(&self, element: T, index: u32) -> bool {
        &&& self.routes(element)
        &&& index >= 1
        &&& !self.leaf() ==> index <= count(self.node_seq(), element)
    }

    open spec fn node_select_spec(&self, element: T, index: u32, pos: u32) -> bool {
        if self.leaf() {
            pos == index - 1
        } else {
            is_kth(self.node_seq(), element, index as int, pos as int)
        }
    }

    fn is_leaf(&self) -> (r: bool) {
        self.left_tree.is_none() && self.right_tree.is_none()
    }

    fn access(&self, index: u32) -> (r: T) {
        self.access_rec(index)
    }

    fn rank(&self, element: T, index: u32) -> (r: u32) {
        self.rank_rec(element, index)
    }

    fn select(&self, element: T, index: u32) -> (r: u32) {
        self.select_rec(element, index)
    }
}

impl<T: Symbol> PointerWaveletTree<T> {
    /// Builds the subtree for the increasing symbols `alphabet` over
    /// `sequence`, which stores the elements of `sequence` that belong to
    /// `alphabet`.
    fn fill_rec(alphabet: &[T], sequence: &[T]) -> (node: PointerWaveletTreeNode<T>)
        requires
            alphabet@.len() >= 1,
            strictly_increasing(alphabet@),
            sequence@.len() <= u32::MAX,
        ensures
            node.wf(),
            node.shaped(alphabet@, sequence@),
            node.min_element == alphabet@[0],
            node.max_element == alphabet@.last(),
            node.leaf() <==> alphabet@.len() == 1,
            !node.leaf() ==> bit_seq(node.bits).len() == keep(sequence@, in_seq(alphabet@)).len(),
            node.seq_of_len(keep(sequence@, in_seq(alphabet@)).len()) == keep(
                sequence@,
                in_seq(alphabet@),
            ),
            forall|j: int| 0 <= j < alphabet@.len() ==> node.routes(#[trigger] alphabet@[j]),
        decreases alphabet@.len(),
    {
        let ghost a = alphabet@;
        let ghost s = sequence@;
        let ghost f = keep(s, in_seq(a));
        proof {
            lemma_keep_satisfies(s, in_seq(a));
        }
        if alphabet.len() > 1 {
            let mut bits = bitvec_new();
            let last = alphabet.len() - 1;
            let middle = midpoint_u64(alphabet[0].to_u64(), alphabet[last].to_u64());
            let ghost m = middle as int;
            let mut i: usize = 0;
            while i < sequence.len()
                invariant
                    i <= sequence.len(),
                    sequence@.len() <= u32::MAX,
                    a == alphabet@,
                    s == sequence@,
                    m == middle as int,
                    bit_seq(bits) == keep(s.take(i as int), in_seq(a)).map_values(above::<T>(m)),
                decreases sequence.len() - i,
            {
                let elem = sequence[i];
                proof {
                    assert(s.take(i + 1) =~= s.take(i as int).push(elem));
                    lemma_keep_push(s.take(i as int), elem, in_seq(a));
                    lemma_keep_satisfies(s.take(i as int), in_seq(a));
                }
                if contains_symbol(alphabet, elem) {
                    bitvec_push(&mut bits, elem.to_u64() > middle);
                    proof {
                        assert(bit_seq(bits) =~= keep(s.take(i + 1), in_seq(a)).map_values(
                            above::<T>(m),
                        ));
                    }
                }
                i = i + 1;
            }
            proof {
                lemma_take_all(s);
            }
            let mut index_middle: usize = 0;
            while index_middle < alphabet.len() && alphabet[index_middle].to_u64() <= middle
                invariant
                    index_middle <= alphabet.len(),
                    a == alphabet@,
                    m == middle as int,
                    forall|j: int| 0 <= j < index_middle ==> a[j].value() <= m,
                decreases alphabet.len() - index_middle,
            {
                index_middle = index_middle + 1;
            }
            let im = index_middle;
            proof {
                assert(a[0].value() <= m);
                assert(a.last().value() > m);
                assert forall|j: int| im <= j < a.len() implies #[trigger] a[j].value() > m by {
                    if j > im {
                        assert(a[im as int].value() < a[j].value());
                    }
                }
            }
            let left_alphabet = vstd::slice::slice_subrange(alphabet, 0, im);
            let right_alphabet = vstd::slice::slice_subrange(alphabet, im, alphabet.len());
            let ghost al = left_alphabet@;
            let ghost ar = right_alphabet@;
            proof {
                assert(al =~= a.take(im as int));
                assert(ar =~= a.skip(im as int));
            }
            let left = Self::fill_rec(left_alphabet, sequence);
            let right = Self::fill_rec(right_alphabet, sequence);
            let node = PointerWaveletTreeNode {
                left_tree: Some(Box::new(left)),
                right_tree: Some(Box::new(right)),
                min_element: alphabet[0],
                max_element: alphabet[last],
                bits,
            };
            proof {
                let b = bit_seq(node.bits);
                assert(b == f.map_values(above::<T>(m)));
                // the symbols on either side of the midpoint
                lemma_keep_prefix(a, at_most::<T>(m), im as int);
                assert forall|x: T| #[trigger] in_seq(al)(x) == (in_seq(a)(x) && at_most::<T>(m)(x)) by {
                    if al.contains(x) {
                        let j = choose|j: int| 0 <= j < al.len() && al[j] == x;
                        assert(a[j] == x);
                    }
                    if a.contains(x) && x.value() <= m {
                        let j = choose|j: int| 0 <= j < a.len() && a[j] == x;
                        assert(al[j] == x);
                    }
                }
                assert forall|x: T| #[trigger] in_seq(ar)(x) == (in_seq(a)(x) && above::<T>(m)(x)) by {
                    if ar.contains(x) {
                        let j = choose|j: int| 0 <= j < ar.len() && ar[j] == x;
                        assert(a[j + im] == x);
                    }
                    if a.contains(x) && x.value() > m {
                        let j = choose|j: int| 0 <= j < a.len() && a[j] == x;
                        assert(ar[j - im] == x);
                    }
                }
                lemma_keep_keep(s, in_seq(a), at_most::<T>(m));
                lemma_keep_ext(s, in_seq(al), both(in_seq(a), at_most::<T>(m)));
                lemma_keep_keep(s, in_seq(a), above::<T>(m));
                lemma_keep_ext(s, in_seq(ar), both(in_seq(a), above::<T>(m)));
                lemma_partition(f, above::<T>(m));
                lemma_keep_ext(f, negate(above::<T>(m)), at_most::<T>(m));
                let ls = keep(s, in_seq(al));
                let rs = keep(s, in_seq(ar));
                assert(ls == keep(f, at_most::<T>(m)));
                assert(rs == keep(f, above::<T>(m)));
                assert(count(b, false) == ls.len());
                assert(count(b, true) == rs.len());
                assert(f == interleave(b, ls, rs));
                lemma_keep_satisfies(f, above::<T>(m));
                lemma_count_le_len(b, false);
                assert(b.len() <= u32::MAX);
                assert(node.seq_of_len(f.len()) == f);
                assert forall|j: int| 0 <= j < a.len() implies node.routes(#[trigger] a[j]) by {
                    if a[j].value() <= m {
                        assert(al[j] == a[j]);
                    } else {
                        assert(ar[j - im] == a[j]);
                    }
                }
                assert(node.wf());
                assert(node.shaped(a, s));
            }
            node
        } else {
            let node = PointerWaveletTreeNode {
                left_tree: None,
                right_tree: None,
                min_element: alphabet[0],
                max_element: alphabet[0],
                bits: bitvec_new(),
            };
            proof {
                let a0 = a[0];
                assert forall|x: T| #[trigger] in_seq(a)(x) == (x == a0) by {
                    if a.contains(x) {
                        let j = choose|j: int| 0 <= j < a.len() && a[j] == x;
                    }
                    if x == a0 {
                        assert(a[0] == x);
                    }
                }
                lemma_keep_ext(s, in_seq(a), |x: T| x == a0);
                lemma_keep_const(s, a0);
                assert(node.seq_of_len(f.len()) =~= f);
            }
            node
        }
    }

    /// Invariant: the alphabet strictly increases, the root is present
    /// exactly when the alphabet is not empty, and every symbol of the
    /// alphabet is reached from the root by descending by its value.
    pub open spec fn wf(self) -> bool {
        &&& strictly_increasing(self.alphabet@)
        &&& (self.root is None <==> self.alphabet@.len() == 0)
        &&& (self.root matches Some(r) ==> {
            &&& r.wf()
            &&& forall|j: int|
                0 <= j < self.alphabet@.len() ==> r.routes(#[trigger] self.alphabet@[j])
        })
    }

    /// The root is a leaf: the tree was built from one distinct symbol.
    pub open spec fn single_symbol(self) -> bool {
        self.root matches Some(r) && r.leaf()
    }

    /// What `new_fill(data)` returns: a well-formed tree over the distinct
    /// symbols of `data` in increasing order, shaped from them over `data`,
    /// which stores `data` when it holds at least two distinct symbols (with
    /// a single distinct symbol the root is a leaf and stores nothing).
    pub open spec fn built_from(self, data: Seq<T>) -> bool {
        &&& self.wf()
        &&& forall|x: T| self.alphabet@.contains(x) <==> data.contains(x)
        &&& (self.root matches Some(r) ==> r.shaped(self.alphabet@, data))
        &&& self@ == (if self.alphabet@.len() >= 2 {
            data
        } else {
            Seq::empty()
        })
        &&& (self.single_symbol() <==> self.alphabet@.len() == 1)
    }

    /// Builds the tree for `data`.
    pub fn new_fill(data: &[T]) -> (tree: PointerWaveletTree<T>)
        requires
            data@.len() <= u32::MAX,
        ensures
            tree.built_from(data@),
    {
        let alphabet = sorted_alphabet(data);
        let size = alphabet.len();
        let mut tree = PointerWaveletTree { alphabet: alphabet, root: Option::None };
        if size > 0 {
            let root = Self::fill_rec(tree.alphabet.as_slice(), data);
            tree.root = Some(root);
            proof {
                let a = tree.alphabet@;
                assert forall|i: int| 0 <= i < data@.len() implies #[trigger] in_seq(a)(data@[i]) by {
                    assert(data@.contains(data@[i]));
                }
                lemma_keep_all(data@, in_seq(a));
                if size == 1 {
                    assert(tree@ =~= Seq::<T>::empty());
                }
            }
        }
        tree
    }

    /// The stored sequence, read back position by position; it panics on
    /// an empty tree.
    pub fn deserialize(&self) -> (result: Vec<T>)
        requires
            self.wf(),
            self.root is Some,
        ensures
            result@ == self@,
    {
        let mut result: Vec<T> = Vec::new();
        let root = self.root.as_ref().unwrap();
        let data_size = bitvec_len(&root.bits);
        proof {
            if !root.leaf() {
                root.lemma_seq_len(data_size as nat);
            }
        }
        let mut i: u64 = 0;
        while i < data_size
            invariant
                self.wf(),
                self.root is Some,
                data_size == bit_seq(self.root->0.bits).len(),
                data_size == self@.len(),
                data_size <= u32::MAX,
                i <= data_size,
                result@ == self@.take(i as int),
            decreases data_size - i,
        {
            let x = self.access(i as u32).unwrap();
            result.push(x);
            proof {
                assert(result@ =~= self@.take(i + 1));
            }
            i = i + 1;
        }
        proof {
            lemma_take_all(self@);
        }
        result
    }

    /// The stored sequence, or the single symbol of a one-symbol tree, or
    /// `None` for an empty tree.
    pub fn to_vec(&mut self) -> (r: Option<Vec<T>>)
        requires
            old(self).wf(),
        ensures
            *final(self) == *old(self),
            match r {
                None => old(self).root is None,
                Some(v) => old(self).root matches Some(root) && v@ == (if root.leaf() {
                    seq![root.min_element]
                } else {
                    old(self)@
                }),
            },
    {
        if self.root.is_none() {
            return Option::None;
        }
        return Option::Some(self.root.as_ref().unwrap().to_vec_rec());
    }
}

impl<T: Symbol> View for PointerWaveletTree<T> {
    type V = Seq<T>;

    /// The stored sequence: that of the root, empty without a root.
    open spec fn view(&self) -> Seq<T> {
        match self.root {
            Some(r) => r.node_seq(),
            None => Seq::empty(),
        }
    }
}

impl<T: Symbol> WaveletTree<T> for PointerWaveletTree<T> {
    open spec fn well_formed(&self) -> bool {
        self.wf()
    }

    /// An empty tree has no root to ask.
    open spec fn access_requires(&self, index: u32) -> bool {
        self.root is Some
    }

    open spec fn access_spec(&self, index: u32) -> Option<T> {
        if index < self@.len() {
            Some(self@[index as int])
        } else {
            None
        }
    }

    /// For a symbol of the alphabet, the position must lie in the stored
    /// sequence, or, in a one-symbol tree, below `u32::MAX`.
    open spec fn rank_requires(&self, element: T, index: u32) -> bool {
        self.alphabet@.contains(element) ==> if self.single_symbol() {
            index < u32::MAX
        } else {
            index < self@.len()
        }
    }

    /// Occurrences of `element` at positions `0..=index`; zero for a symbol
    /// outside the alphabet; `index + 1` in a one-symbol tree.
    open spec fn rank_spec(&self, element: T, index: u32) -> int {
        if !self.alphabet@.contains(element) {
            0
        } else if self.single_symbol() {
            index + 1
        } else {
            count(self@.take(index + 1), element) as int
        }
    }

    /// The symbol must belong to the alphabet, `index` must be at least 1
    /// and, unless the tree holds one symbol, at most the symbol's count.
    open spec fn select_requires(&self, element: T, index: u32) -> bool {
        &&& self.alphabet@.contains(element)
        &&& index >= 1
        &&& !self.single_symbol() ==> index <= count(self@, element)
    }

    /// The position of the `index`-th occurrence; `index - 1` in a
    /// one-symbol tree.
    open spec fn select_spec(&self, element: T, index: u32, pos: u32) -> bool {
        if self.single_symbol() {
            pos == index - 1
        } else {
            is_kth(self@, element, index as int, pos as int)
        }
    }

    fn access(&self, index: u32) -> (r: Option<T>) {
        let root = self.root.as_ref().unwrap();
        if index >= bitvec_len(&root.bits) as u32 {
            None
        } else {
            Some(root.access(index))
        }
    }

    fn rank(&self, element: T, index: u32) -> (r: u32) {
        if !contains_symbol(self.alphabet.as_slice(), element) {
            return 0;
        }
        let root = self.root.as_ref().unwrap();
        proof {
            let j = choose|j: int| 0 <= j < self.alphabet@.len() && self.alphabet@[j] == element;
            assert(root.routes(self.alphabet@[j]));
        }
        root.rank(element, index)
    }

    fn select(&self, element: T, index: u32) -> (r: u32) {
        let root = self.root.as_ref().unwrap();
        proof {
            let j = choose|j: int| 0 <= j < self.alphabet@.len() && self.alphabet@[j] == element;
            assert(root.routes(self.alphabet@[j]));
        }
        root.select(element, index)
    }
}


/// A tree built from a sequence with at least two distinct symbols stores
/// exactly that sequence, so `deserialize` and `to_vec` give it back.
pub proof fn law_stores_sequence<T: Symbol>(tree: PointerWaveletTree<T>, data: Seq<T>)
    requires
        tree.built_from(data),
        tree.alphabet@.len() >= 2,
    ensures
        tree@ == data,
        tree.root matches Some(root) && !root.leaf(),
{
}

/// In a tree built from a sequence with at least two distinct symbols,
/// `access(i)` reads back the `i`-th symbol, and nothing past the end.
pub proof fn law_access_reads_back<T: Symbol>(tree: PointerWaveletTree<T>, data: Seq<T>, i: u32)
    requires
        tree.built_from(data),
        tree.alphabet@.len() >= 2,
    ensures
        tree.access_requires(i),
        tree.access_spec(i) == (if i < data.len() {
            Some(data[i as int])
        } else {
            None
        }),
{
}

/// In a tree built from a sequence with at least two distinct symbols,
/// `rank(e, i)` counts the occurrences of `e` among the first `i + 1`
/// symbols, whether or not `e` occurs at all.
pub proof fn law_rank_counts<T: Symbol>(tree: PointerWaveletTree<T>, data: Seq<T>, e: T, i: u32)
    requires
        tree.built_from(data),
        tree.alphabet@.len() >= 2,
        i < data.len(),
    ensures
        tree.rank_requires(e, i),
        tree.rank_spec(e, i) == count(data.take(i + 1), e),
{
    if !data.contains(e) {
        lemma_count_contains(data, e);
        lemma_count_take_le(data, e, i + 1);
    }
}

/// In a tree built from a sequence with at least two distinct symbols,
/// `select(e, k)` is defined for every `k` from 1 to the count of `e`, and
/// answers the position of the `k`-th occurrence.
pub proof fn law_select_finds<T: Symbol>(
    tree: PointerWaveletTree<T>,
    data: Seq<T>,
    e: T,
    k: u32,
    pos: u32,
)
    requires
        tree.built_from(data),
        tree.alphabet@.len() >= 2,
        1 <= k <= count(data, e),
    ensures
        tree.select_requires(e, k),
        tree.select_spec(e, k, pos) <==> is_kth(data, e, k as int, pos as int),
{
    lemma_count_contains(data, e);
}

/// `rank` undoes `select`: at the position of the `k`-th occurrence of `e`
/// there is an `e`, and `e` has occurred `k` times up to it.
pub proof fn law_rank_after_select<T: Symbol>(
    tree: PointerWaveletTree<T>,
    e: T,
    k: u32,
    pos: u32,
)
    requires
        tree.wf(),
        !tree.single_symbol(),
        tree.select_requires(e, k),
        tree.select_spec(e, k, pos),
    ensures
        tree.access_spec(pos) == Some(e),
        tree.rank_requires(e, pos),
        tree.rank_spec(e, pos) == k,
{
    lemma_count_step(tree@, e, pos as int);
}

/// The answer of `select` is unique.
pub proof fn law_select_unique<T: Symbol>(
    tree: PointerWaveletTree<T>,
    e: T,
    k: u32,
    p: u32,
    q: u32,
)
    requires
        tree.wf(),
        tree.select_spec(e, k, p),
        tree.select_spec(e, k, q),
    ensures
        p == q,
{
    if !tree.single_symbol() {
        lemma_kth_unique(tree@, e, k as int, p as int, q as int);
    }
}

/// A symbol outside the alphabet never occurs: its rank is 0 at every position.
pub proof fn law_rank_missing<T: Symbol>(tree: PointerWaveletTree<T>, e: T, i: u32)
    requires
        tree.wf(),
        !tree.alphabet@.contains(e),
    ensures
        tree.rank_requires(e, i),
        tree.rank_spec(e, i) == 0,
{
}

} // verus!
