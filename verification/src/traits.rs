use vstd::prelude::*;

verus! {

/// The queries that a wavelet tree answers over the sequence it stores.
///
/// Each implementation defines, as spec functions, on which inputs a query
/// is defined and what it answers; the methods promise exactly that.
pub trait WaveletTree<T>: Sized {
    /// The tree is well formed.
    spec fn well_formed(&self) -> bool;

    /// `access(index)` is defined.
    spec fn access_requires(&self, index: u32) -> bool;

    /// What `access(index)` answers.
    spec fn access_spec(&self, index: u32) -> Option<T>;

    /// `rank(element, index)` is defined.
    spec fn rank_requires(&self, element: T, index: u32) -> bool;

    /// What `rank(element, index)` answers.
    spec fn rank_spec(&self, element: T, index: u32) -> int;

    /// `select(element, index)` is defined.
    spec fn select_requires(&self, element: T, index: u32) -> bool;

    /// `pos` is an answer of `select(element, index)`.
    spec fn select_spec(&self, element: T, index: u32, pos: u32) -> bool;

    /// The symbol at position `index`, if there is one.
    fn access(&self, index: u32) -> (r: Option<T>)
        requires
            self.well_formed(),
            self.access_requires(index),
        ensures
            r == self.access_spec(index),
    ;

    /// How often `element` occurs up to position `index`.
    fn rank(&self, element: T, index: u32) -> (r: u32)
        requires
            self.well_formed(),
            self.rank_requires(element, index),
        ensures
            r == self.rank_spec(element, index),
    ;

    /// The position of the `index`-th occurrence of `element`, counting from 1.
    fn select(&self, element: T, index: u32) -> (r: u32)
        requires
            self.well_formed(),
            self.select_requires(element, index),
        ensures
            self.select_spec(element, index, r),
    ;
}

/// The queries that one node of a pointer-based wavelet tree answers over
/// the part of the sequence that it stores.
pub trait Node<T>: Sized {
    /// The node and the subtree below it are well formed.
    spec fn node_well_formed(&self) -> bool;

    /// The node has no children.
    spec fn spec_is_leaf(&self) -> bool;

    /// `access(index)` is defined.
    spec fn node_access_requires(&self, index: u32) -> bool;

    /// What `access(index)` answers.
    spec fn node_access_spec(&self, index: u32) -> T;

    /// `rank(element, index)` is defined.
    spec fn node_rank_requires(&self, element: T, index: u32) -> bool;

    /// What `rank(element, index)` answers.
    spec fn node_rank_spec(&self, element: T, index: u32) -> int;

    /// `select(element, index)` is defined.
    spec fn node_select_requires(&self, element: T, index: u32) -> bool;

    /// `pos` is an answer of `select(element, index)`.
    spec fn node_select_spec(&self, element: T, index: u32, pos: u32) -> bool;

    /// Whether the node has no children.
    fn is_leaf(&self) -> (r: bool)
        ensures
            r == self.spec_is_leaf(),
    ;

    /// The symbol at position `index` of this node's part of the sequence.
    fn access(&self, index: u32) -> (r: T)
        requires
            self.node_well_formed(),
            self.node_access_requires(index),
        ensures
            r == self.node_access_spec(index),
    ;

    /// How often `element` occurs up to position `index` in this node's part.
    fn rank(&self, element: T, index: u32) -> (r: u32)
        requires
            self.node_well_formed(),
            self.node_rank_requires(element, index),
        ensures
            r == self.node_rank_spec(element, index),
    ;

    /// The position of the `index`-th occurrence of `element` in this node's part.
    fn select(&self, element: T, index: u32) -> (r: u32)
        requires
            self.node_well_formed(),
            self.node_select_requires(element, index),
        ensures
            self.node_select_spec(element, index, r),
    ;
}

} // verus!
