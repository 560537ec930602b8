use crate::bits::{
    lemma_kth_unique, lemma_kth_exists, lemma_count_contains,
    bit_seq, bitvec_clone, bitvec_new, bitvec_push, count, is_kth, lemma_count_add,
    lemma_count_le_len, rank_select_new, rank_select_rank_1, rank_select_select_1, BitVector,
};
use crate::partition::keep;
use crate::pointer::{law_select_unique, PointerWaveletTree};
use crate::traits::WaveletTree;
use std::collections::HashMap;
use vstd::prelude::*;

verus! {

broadcast use vstd::std_specs::hash::group_hash_axioms;

/// The successors of node `k` in an adjacency map (none when `k` is absent).
pub open spec fn successors(adj: Map<u64, Seq<u64>>, k: int) -> Seq<u64> {
    if adj.contains_key(k as u64) {
        adj[k as u64]
    } else {
        Seq::empty()
    }
}

/// The symbols that encode nodes `1..=n`: for each node in turn, a `0`
/// followed by its successors.
pub open spec fn layout_data(adj: Map<u64, Seq<u64>>, n: nat) -> Seq<u64>
    decreases n,
{
    if n == 0 {
        Seq::empty()
    } else {
        layout_data(adj, (n - 1) as nat).push(0u64) + successors(adj, n as int)
    }
}

/// The bits that mark where each node's block starts in `layout_data`: a
/// set bit for the `0` that opens a block, a clear bit per successor.
pub open spec fn layout_bits(adj: Map<u64, Seq<u64>>, n: nat) -> Seq<bool>
    decreases n,
{
    if n == 0 {
        Seq::empty()
    } else {
        layout_bits(adj, (n - 1) as nat).push(true) + Seq::new(
            successors(adj, n as int).len(),
            |i: int| false,
        )
    }
}

/// The adjacency lists of a map from nodes to vectors.
pub open spec fn adjacency_view(m: Map<u64, Vec<u64>>) -> Map<u64, Seq<u64>> {
    m.map_values(|v: Vec<u64>| v@)
}

/// The adjacency lists that `new_tuple` collects from a list of edges: each
/// endpoint gets a list, and each edge `(a, b)` appends `b` to `a`'s list.
pub open spec fn tuples_adjacency(t: Seq<(u64, u64)>) -> Map<u64, Seq<u64>>
    decreases t.len(),
{
    if t.len() == 0 {
        Map::empty()
    } else {
        let m = tuples_adjacency(t.drop_last());
        let a = t.last().0;
        let b = t.last().1;
        let m1 = if m.contains_key(a) {
            m
        } else {
            m.insert(a, Seq::empty())
        };
        let m2 = if m1.contains_key(b) {
            m1
        } else {
            m1.insert(b, Seq::empty())
        };
        m2.insert(a, m2[a].push(b))
    }
}

/// The largest endpoint of a list of edges (0 for no edges).
pub open spec fn tuples_max(t: Seq<(u64, u64)>) -> u64
    decreases t.len(),
{
    if t.len() == 0 {
        0
    } else {
        let m = tuples_max(t.drop_last());
        let a = t.last().0;
        let b = t.last().1;
        let m1 = if a > m {
            a
        } else {
            m
        };
        if b > m1 {
            b
        } else {
            m1
        }
    }
}

/// The layout's bits and symbols have the same length, and one set bit per node.
pub proof fn lemma_layout_len(adj: Map<u64, Seq<u64>>, n: nat)
    ensures
        layout_bits(adj, n).len() == layout_data(adj, n).len(),
        count(layout_bits(adj, n), true) == n,
        layout_data(adj, n).len() >= n,
    decreases n,
{
    if n > 0 {
        lemma_layout_len(adj, (n - 1) as nat);
        let prev = layout_bits(adj, (n - 1) as nat);
        let tail = Seq::new(successors(adj, n as int).len(), |i: int| false);
        lemma_count_add(prev.push(true), tail, true);
        assert(prev.push(true).drop_last() =~= prev);
        lemma_no_true(tail);
    }
}

/// A run of clear bits has no set bit.
proof fn lemma_no_true(s: Seq<bool>)
    requires
        forall|i: int| 0 <= i < s.len() ==> !s[i],
    ensures
        count(s, true) == 0,
    decreases s.len(),
{
    if s.len() > 0 {
        lemma_no_true(s.drop_last());
    }
}

/// The layout of fewer nodes is a prefix of the layout of more.
pub proof fn lemma_layout_prefix(adj: Map<u64, Seq<u64>>, k: nat, n: nat)
    requires
        k <= n,
    ensures
        layout_data(adj, k).len() <= layout_data(adj, n).len(),
        layout_data(adj, n).take(layout_data(adj, k).len() as int) == layout_data(adj, k),
        layout_bits(adj, n).take(layout_bits(adj, k).len() as int) == layout_bits(adj, k),
    decreases n - k,
{
    lemma_layout_len(adj, k);
    lemma_layout_len(adj, n);
    if k < n {
        lemma_layout_prefix(adj, k, (n - 1) as nat);
        let d = layout_data(adj, (n - 1) as nat);
        let bb = layout_bits(adj, (n - 1) as nat);
        lemma_layout_len(adj, (n - 1) as nat);
        assert(layout_data(adj, n).take(d.len() as int) =~= d);
        assert(layout_bits(adj, n).take(bb.len() as int) =~= bb);
        assert(layout_data(adj, n).take(layout_data(adj, k).len() as int) =~= d.take(
            layout_data(adj, k).len() as int,
        ));
        assert(layout_bits(adj, n).take(layout_bits(adj, k).len() as int) =~= bb.take(
            layout_bits(adj, k).len() as int,
        ));
    } else {
        assert(layout_data(adj, n).take(layout_data(adj, k).len() as int) =~= layout_data(adj, k));
        assert(layout_bits(adj, n).take(layout_bits(adj, k).len() as int) =~= layout_bits(adj, k));
    }
}

/// A directed graph over the nodes `1..=max_node`, stored as a wavelet tree
/// over the concatenated adjacency lists (each list opened by a `0`) and a
/// bit vector that marks where each list starts.
pub struct Graph {
    pub tree: PointerWaveletTree<u64>,
    pub bits: BitVector,
    pub max_node: u64,
}

impl Graph {
    /// Invariant: the tree is well formed, there is one set bit per node,
    /// and the tree is not empty when there is a node.
    pub open spec fn wf(self) -> bool {
        &&& self.tree.wf()
        &&& count(bit_seq(self.bits), true) == self.max_node
        &&& bit_seq(self.bits).len() <= u32::MAX
        &&& self.max_node < u64::MAX
        &&& (self.max_node >= 1 ==> self.tree.root is Some)
    }

    /// What `new(adjacency, max_node)` returns, for the adjacency lists `adj`.
    pub open spec fn built_from(self, adj: Map<u64, Seq<u64>>, max_node: u64) -> bool {
        &&& self.wf()
        &&& self.max_node == max_node
        &&& bit_seq(self.bits) == layout_bits(adj, max_node as nat)
        &&& self.tree.built_from(layout_data(adj, max_node as nat))
    }

    /// Builds the graph over nodes `1..=max_node` from adjacency lists; a
    /// node 0 is not allowed.
    pub fn new(adjacency: &HashMap<u64, Vec<u64>>, max_node: u64) -> (g: Graph)
        requires
            !adjacency@.contains_key(0),
            max_node < u64::MAX,
            layout_data(adjacency_view(adjacency@), max_node as nat).len() <= u32::MAX,
        ensures
            g.built_from(adjacency_view(adjacency@), max_node),
    {
        let ghost adj = adjacency_view(adjacency@);
        let ghost total = layout_data(adj, max_node as nat).len();
        let mut data: Vec<u64> = Vec::new();
        let mut bits = bitvec_new();
        let mut key: u64 = 1;
        while key <= max_node
            invariant
                1 <= key <= max_node + 1,
                max_node < u64::MAX,
                adj == adjacency_view(adjacency@),
                total == layout_data(adj, max_node as nat).len(),
                total <= u32::MAX,
                data@ == layout_data(adj, (key - 1) as nat),
                bit_seq(bits) == layout_bits(adj, (key - 1) as nat),
            decreases max_node + 1 - key,
        {
            proof {
                lemma_layout_len(adj, (key - 1) as nat);
                lemma_layout_len(adj, key as nat);
                lemma_layout_prefix(adj, key as nat, max_node as nat);
            }
            let ghost before_data = data@;
            let ghost before_bits = bit_seq(bits);
            bitvec_push(&mut bits, true);
            data.push(0);
            let list = adjacency.get(&key);
            match list {
                None => {
                    proof {
                        assert(!adj.contains_key(key));
                        assert(data@ =~= layout_data(adj, key as nat));
                        assert(bit_seq(bits) =~= layout_bits(adj, key as nat));
                    }
                },
                Some(list) => {
                    let ghost succ = list@;
                    assert(adj.contains_key(key) && adj[key] == succ);
                    assert(layout_data(adj, key as nat) == before_data.push(0u64) + succ);
                    let mut j: usize = 0;
                    while j < list.len()
                        invariant
                            j <= list.len(),
                            succ == list@,
                            succ == successors(adj, key as int),
                            data@ == before_data.push(0u64) + succ.take(j as int),
                            bit_seq(bits) == before_bits.push(true) + Seq::new(
                                j as nat,
                                |i: int| false,
                            ),
                            before_data.len() == before_bits.len(),
                            before_data == layout_data(adj, (key - 1) as nat),
                            before_bits == layout_bits(adj, (key - 1) as nat),
                            layout_data(adj, key as nat).len() <= total,
                            layout_data(adj, key as nat).len() == before_data.len() + 1 + succ.len(),
                            total <= u32::MAX,
                        decreases list.len() - j,
                    {
                        data.push(list[j]);
                        bitvec_push(&mut bits, false);
                        proof {
                            assert(succ.take(j + 1) =~= succ.take(j as int).push(succ[j as int]));
                            assert(data@ =~= before_data.push(0u64) + succ.take(j + 1));
                            assert(bit_seq(bits) =~= before_bits.push(true) + Seq::new(
                                (j + 1) as nat,
                                |i: int| false,
                            ));
                        }
                        j = j + 1;
                    }
                    proof {
                        assert(succ.take(succ.len() as int) =~= succ);
                        assert(data@ =~= layout_data(adj, key as nat));
                        assert(bit_seq(bits) =~= layout_bits(adj, key as nat));
                    }
                },
            }
            key = key + 1;
        }
        proof {
            lemma_layout_len(adj, max_node as nat);
        }
        let tree = PointerWaveletTree::new_fill(data.as_slice());
        proof {
            if max_node >= 1 {
                assert(data@.contains(0u64)) by {
                    lemma_layout_len(adj, (max_node - 1) as nat);
                    assert(data@[layout_data(adj, (max_node - 1) as nat).len() as int] == 0u64);
                }
                assert(tree.alphabet@.contains(0u64));
            }
        }
        Graph { tree, bits, max_node }
    }

    /// Builds the graph from a list of edges `(a, b)`, over the nodes up to
    /// the largest endpoint; node 0 is not allowed.
    pub fn new_tuple(tuples: &Vec<(u64, u64)>) -> (g: Graph)
        requires
            forall|i: int| 0 <= i < tuples@.len() ==> (#[trigger] tuples@[i]).0 != 0 && tuples@[i].1 != 0,
            tuples_max(tuples@) < u64::MAX,
            layout_data(tuples_adjacency(tuples@), tuples_max(tuples@) as nat).len() <= u32::MAX,
        ensures
            g.built_from(tuples_adjacency(tuples@), tuples_max(tuples@)),
    {
        let mut set: HashMap<u64, Vec<u64>> = HashMap::new();
        let mut max: u64 = 0;
        let mut i: usize = 0;
        while i < tuples.len()
            invariant
                i <= tuples.len(),
                adjacency_view(set@) == tuples_adjacency(tuples@.take(i as int)),
                max == tuples_max(tuples@.take(i as int)),
                forall|k: u64| set@.contains_key(k) ==> k != 0,
                forall|j: int| 0 <= j < tuples@.len() ==> (#[trigger] tuples@[j]).0 != 0 && tuples@[j].1 != 0,
            decreases tuples.len() - i,
        {
            let (a, b) = tuples[i];
            proof {
                assert(tuples@.take(i + 1).drop_last() =~= tuples@.take(i as int));
                assert(tuples@.take(i + 1).last() == (a, b));
            }
            let ghost m0 = adjacency_view(set@);
            if a > max {
                max = a;
            }
            if b > max {
                max = b;
            }
            if !set.contains_key(&a) {
                set.insert(a, Vec::new());
            }
            if !set.contains_key(&b) {
                set.insert(b, Vec::new());
            }
            let ghost m2 = adjacency_view(set@);
            let mut list = set.remove(&a).unwrap();
            list.push(b);
            set.insert(a, list);
            proof {
                let t = tuples@.take(i as int);
                let m1 = if m0.contains_key(a) { m0 } else { m0.insert(a, Seq::empty()) };
                let m2s = if m1.contains_key(b) { m1 } else { m1.insert(b, Seq::empty()) };
                assert(m2 =~= m2s);
                assert(adjacency_view(set@) =~= m2s.insert(a, m2s[a].push(b)));
            }
            i = i + 1;
        }
        proof {
            assert(tuples@.take(tuples@.len() as int) =~= tuples@);
            assert(adjacency_view(set@).dom() =~= set@.dom());
        }
        Graph::new(&set, max)
    }

    /// Where `node`'s list starts: the position of the `node`-th set bit.
    pub open spec fn block_start(self, node: u64) -> int {
        choose|p: int| is_kth(bit_seq(self.bits), true, node as int, p)
    }

    /// What `neighbour(node, i)` answers: the symbol `i` positions after the
    /// start of `node`'s list (its `i`-th successor while `i` is at most its
    /// degree), or `None` for a node above `max_node`.
    pub open spec fn neighbour_spec(self, node: u64, i: u64) -> Option<u64> {
        if node > self.max_node {
            None
        } else {
            self.tree.access_spec((self.block_start(node) + i) as u32)
        }
    }

    /// The position in the tree of the `i`-th occurrence of `node`.
    pub open spec fn occurrence(self, node: u64, i: u64) -> u32 {
        choose|p: u32| #[trigger] self.tree.select_spec(node, i as u32, p)
    }

    /// What `rev_neighbour(node, i)` answers: the number of lists that start
    /// at or before the `i`-th occurrence of `node`, that is the node whose
    /// list holds it; `None` for a node above `max_node`.
    pub open spec fn rev_neighbour_spec(self, node: u64, i: u64) -> Option<u64> {
        if node > self.max_node {
            None
        } else {
            let p = self.occurrence(node, i);
            if p < bit_seq(self.bits).len() {
                Some(count(bit_seq(self.bits).take(p + 1), true) as u64)
            } else {
                None
            }
        }
    }

    /// The `i`-th symbol after the `0` that opens `node`'s list; `None` for
    /// a node above `max_node`.
    pub fn neighbour(&self, node: u64, i: u64) -> (r: Option<u64>)
        requires
            self.wf(),
            node <= self.max_node ==> node >= 1 && self.block_start(node) + i <= u64::MAX,
        ensures
            r == self.neighbour_spec(node, i),
    {
        if node > self.max_node {
            return None;
        }
        proof {
            lemma_count_le_len(bit_seq(self.bits), true);
        }
        let rs = rank_select_new(bitvec_clone(&self.bits), 1);
        let k = rank_select_select_1(&rs, node).unwrap();
        proof {
            lemma_kth_unique(bit_seq(self.bits), true, node as int, k as int, self.block_start(node));
        }
        return self.tree.access((k + i) as u32);
    }

    /// The node whose list holds the `i`-th occurrence of `node`; `None` for
    /// a node above `max_node`.
    pub fn rev_neighbour(&self, node: u64, i: u64) -> (r: Option<u64>)
        requires
            self.wf(),
            node <= self.max_node ==> self.tree.select_requires(node, i as u32),
        ensures
            r == self.rev_neighbour_spec(node, i),
    {
        if node > self.max_node {
            return None;
        }
        let k = self.tree.select(node, i as u32);
        proof {
            law_select_unique(self.tree, node, i as u32, k, self.occurrence(node, i));
        }
        let rs = rank_select_new(bitvec_clone(&self.bits), 1);
        return rank_select_rank_1(&rs, k as u64);
    }
}

/// Node `node`'s block in the layout: its set bit is the `node`-th one, at
/// the position where its `0` stands, followed by its successors.
pub proof fn lemma_block(adj: Map<u64, Seq<u64>>, n: nat, node: int)
    requires
        1 <= node <= n,
    ensures
        ({
            let start = layout_data(adj, (node - 1) as nat).len() as int;
            let succ = successors(adj, node);
            &&& is_kth(layout_bits(adj, n), true, node, start)
            &&& start + 1 + succ.len() <= layout_data(adj, n).len()
            &&& layout_data(adj, n)[start] == 0
            &&& forall|j: int|
                0 <= j < succ.len() ==> #[trigger] layout_data(adj, n)[start + 1 + j] == succ[j]
        }),
{
    let k = (node - 1) as nat;
    lemma_layout_len(adj, k);
    lemma_layout_len(adj, node as nat);
    lemma_layout_len(adj, n);
    lemma_layout_prefix(adj, node as nat, n);
    lemma_layout_prefix(adj, k, n);
    let start = layout_data(adj, k).len() as int;
    let bn = layout_bits(adj, n);
    let bk = layout_bits(adj, k);
    assert(layout_bits(adj, node as nat) == bk.push(true) + Seq::new(
        successors(adj, node).len(),
        |i: int| false,
    ));
    assert(bn.take(start) == bk);
    assert(bn[start] == layout_bits(adj, node as nat)[start]);
    let dn = layout_data(adj, n);
    assert(layout_data(adj, node as nat) == layout_data(adj, k).push(0u64) + successors(adj, node));
    assert(dn[start] == layout_data(adj, node as nat)[start]);
    assert forall|j: int| 0 <= j < successors(adj, node).len() implies #[trigger] dn[start + 1 + j]
        == successors(adj, node)[j] by {
        assert(dn[start + 1 + j] == layout_data(adj, node as nat)[start + 1 + j]);
    }
}

/// Every position of the layout lies in the block of the node that the
/// set bits up to it count: at the block's start stands its `0`, after it
/// the node's successors.
pub proof fn lemma_locate(adj: Map<u64, Seq<u64>>, n: nat, p: int)
    requires
        0 <= p < layout_data(adj, n).len(),
    ensures
        ({
            let src = count(layout_bits(adj, n).take(p + 1), true) as int;
            let start = layout_data(adj, (src - 1) as nat).len() as int;
            &&& 1 <= src <= n
            &&& start <= p < layout_data(adj, src as nat).len()
            &&& p == start ==> layout_data(adj, n)[p] == 0
            &&& p > start ==> layout_data(adj, n)[p] == successors(adj, src)[p - start - 1]
        }),
    decreases n,
{
    let k = (n - 1) as nat;
    lemma_layout_len(adj, k);
    lemma_layout_len(adj, n);
    let dk = layout_data(adj, k);
    let bk = layout_bits(adj, k);
    let falses = Seq::new(successors(adj, n as int).len(), |i: int| false);
    assert(layout_bits(adj, n) == bk.push(true) + falses);
    assert(layout_data(adj, n) == dk.push(0u64) + successors(adj, n as int));
    if p < dk.len() {
        lemma_locate(adj, k, p);
        assert(layout_bits(adj, n).take(p + 1) =~= bk.take(p + 1));
        assert(layout_data(adj, n)[p] == dk[p]);
        let src = count(bk.take(p + 1), true) as int;
        lemma_layout_prefix(adj, src as nat, k);
    } else {
        let t = layout_bits(adj, n).take(p + 1);
        assert(t =~= bk.push(true) + falses.take(p - dk.len()));
        lemma_count_add(bk.push(true), falses.take(p - dk.len()), true);
        assert(bk.push(true).drop_last() =~= bk);
        lemma_no_true(falses.take(p - dk.len()));
    }
}

/// In a graph built from adjacency lists, `neighbour(node, i)` is the
/// `i`-th successor of `node`, for `i` from 1 to its degree (when the
/// stored sequence holds at least two distinct symbols, that is, some
/// node has a successor other than 0).
pub proof fn law_neighbour_is_successor(
    g: Graph,
    adj: Map<u64, Seq<u64>>,
    max_node: u64,
    node: u64,
    i: u64,
)
    requires
        g.built_from(adj, max_node),
        g.tree.alphabet@.len() >= 2,
        1 <= node <= max_node,
        1 <= i <= successors(adj, node as int).len(),
    ensures
        g.block_start(node) + i <= u64::MAX,
        g.neighbour_spec(node, i) == Some(successors(adj, node as int)[i - 1]),
{
    lemma_block(adj, max_node as nat, node as int);
    let start = layout_data(adj, (node - 1) as nat).len() as int;
    lemma_kth_unique(bit_seq(g.bits), true, node as int, start, g.block_start(node));
    assert(layout_data(adj, max_node as nat)[start + 1 + (i - 1)] == successors(
        adj,
        node as int,
    )[i - 1]);
}

/// In a graph built from adjacency lists, `rev_neighbour(node, i)`, for
/// `i` from 1 to the number of edges into `node`, is a node that has
/// `node` as a successor (when the stored sequence holds at least two
/// distinct symbols).
pub proof fn law_rev_neighbour_is_source(
    g: Graph,
    adj: Map<u64, Seq<u64>>,
    max_node: u64,
    node: u64,
    i: u64,
)
    requires
        g.built_from(adj, max_node),
        g.tree.alphabet@.len() >= 2,
        1 <= node <= max_node,
        1 <= i <= count(layout_data(adj, max_node as nat), node),
    ensures
        g.tree.select_requires(node, i as u32),
        g.rev_neighbour_spec(node, i) matches Some(src) && 1 <= src <= max_node
            && successors(adj, src as int).contains(node),
{
    let data = layout_data(adj, max_node as nat);
    lemma_count_le_len(data, node);
    lemma_count_contains(data, node);
    lemma_kth_exists(data, node, i as int);
    let w = choose|w: int| is_kth(data, node, i as int, w);
    assert(g.tree.select_spec(node, i as u32, w as u32));
    let p = g.occurrence(node, i);
    assert(is_kth(data, node, i as int, p as int));
    lemma_layout_len(adj, max_node as nat);
    lemma_locate(adj, max_node as nat, p as int);
    let src = count(layout_bits(adj, max_node as nat).take(p + 1), true) as int;
    let start = layout_data(adj, (src - 1) as nat).len() as int;
    assert(p > start);
    let succ = successors(adj, src);
    assert(succ[p - start - 1] == node);
    lemma_layout_prefix(adj, src as nat, max_node as nat);
    lemma_layout_len(adj, src as nat);
    lemma_layout_len(adj, (src - 1) as nat);
    assert(0 <= p - start - 1 < succ.len());
}

/// Every edge `(a, b)` of the list is recorded: both endpoints have a list,
/// `b` is among `a`'s successors, and both lie within `1..=tuples_max`
/// when no endpoint is 0.
pub proof fn law_tuples_recorded(t: Seq<(u64, u64)>, k: int)
    requires
        0 <= k < t.len(),
    ensures
        tuples_adjacency(t).contains_key(t[k].0),
        tuples_adjacency(t).contains_key(t[k].1),
        tuples_adjacency(t)[t[k].0].contains(t[k].1),
        t[k].0 <= tuples_max(t),
        t[k].1 <= tuples_max(t),
    decreases t.len(),
{
    let u = t.drop_last();
    let a = t.last().0;
    let b = t.last().1;
    let m = tuples_adjacency(u);
    let m1 = if m.contains_key(a) {
        m
    } else {
        m.insert(a, Seq::empty())
    };
    let m2 = if m1.contains_key(b) {
        m1
    } else {
        m1.insert(b, Seq::empty())
    };
    assert(tuples_adjacency(t) == m2.insert(a, m2[a].push(b)));
    if k == t.len() - 1 {
        assert(m2[a].push(b)[m2[a].len() as int] == b);
    } else {
        law_tuples_recorded(u, k);
        assert(t[k] == u[k]);
        let x = u[k].0;
        let y = u[k].1;
        let j = choose|j: int| 0 <= j < m[x].len() && m[x][j] == y;
        if x == a {
            assert(m2[a] == m[a]);
            assert(m2[a].push(b)[j] == y);
        } else {
            assert(m2[x] == m[x]);
            assert(tuples_adjacency(t)[x][j] == y);
        }
    }
}

/// In a graph built by `new_tuple` from a list of edges, each edge `(a, b)`
/// is found from `a` by `neighbour` (when the stored sequence holds at
/// least two distinct symbols).
pub proof fn law_edge_is_neighbour(g: Graph, t: Seq<(u64, u64)>, k: int)
    requires
        g.built_from(tuples_adjacency(t), tuples_max(t)),
        g.tree.alphabet@.len() >= 2,
        0 <= k < t.len(),
        t[k].0 != 0,
    ensures
        exists|i: u64|
            1 <= i && #[trigger] g.neighbour_spec(t[k].0, i) == Some(t[k].1),
{
    law_tuples_recorded(t, k);
    let adj = tuples_adjacency(t);
    let a = t[k].0;
    let succ = successors(adj, a as int);
    let j = choose|j: int| 0 <= j < adj[a].len() && adj[a][j] == t[k].1;
    assert(succ == adj[a]);
    lemma_layout_len(adj, tuples_max(t) as nat);
    lemma_block(adj, tuples_max(t) as nat, a as int);
    assert(j + 1 <= u64::MAX);
    law_neighbour_is_successor(g, adj, tuples_max(t), a, (j + 1) as u64);
    assert(g.neighbour_spec(a, (j + 1) as u64) == Some(t[k].1));
}

/// The edges of a list that leave `a`, as a predicate.
pub open spec fn leaves_from(a: u64) -> spec_fn((u64, u64)) -> bool {
    |e: (u64, u64)| e.0 == a
}

/// The target of an edge.
pub open spec fn edge_target(e: (u64, u64)) -> u64 {
    e.1
}

/// Whether `a` is an endpoint of some edge of the list.
pub open spec fn is_endpoint(t: Seq<(u64, u64)>, a: u64) -> bool {
    exists|k: int| 0 <= k < t.len() && ((#[trigger] t[k]).0 == a || t[k].1 == a)
}

/// The adjacency lists that `new_tuple` collects hold exactly the input
/// edges: a node has a list exactly when it is an endpoint of some edge,
/// and its list is the targets of the edges that leave it, in input order
/// (so no successor appears that no edge gives).
pub proof fn law_tuples_adjacency_exact(t: Seq<(u64, u64)>, a: u64)
    ensures
        tuples_adjacency(t).contains_key(a) <==> is_endpoint(t, a),
        tuples_adjacency(t).contains_key(a) ==> tuples_adjacency(t)[a] == keep(
            t,
            leaves_from(a),
        ).map_values(|e: (u64, u64)| edge_target(e)),
        !tuples_adjacency(t).contains_key(a) ==> keep(t, leaves_from(a)) == Seq::<
            (u64, u64),
        >::empty(),
    decreases t.len(),
{
    let f = |e: (u64, u64)| edge_target(e);
    if t.len() == 0 {
        assert(tuples_adjacency(t) == Map::<u64, Seq<u64>>::empty());
        assert(keep(t, leaves_from(a)) =~= Seq::<(u64, u64)>::empty());
    } else {
        let u = t.drop_last();
        law_tuples_adjacency_exact(u, a);
        let x = t.last().0;
        let y = t.last().1;
        let m = tuples_adjacency(u);
        let m1 = if m.contains_key(x) {
            m
        } else {
            m.insert(x, Seq::empty())
        };
        let m2 = if m1.contains_key(y) {
            m1
        } else {
            m1.insert(y, Seq::empty())
        };
        assert(tuples_adjacency(t) == m2.insert(x, m2[x].push(y)));
        let ku = keep(u, leaves_from(a));
        assert(keep(t, leaves_from(a)) == (if leaves_from(a)(t.last()) {
            ku.push(t.last())
        } else {
            ku
        }));
        assert(ku.push(t.last()).map_values(f) =~= ku.map_values(f).push(y));
        assert(t[t.len() - 1] == t.last());
        if is_endpoint(u, a) {
            let k = choose|k: int| 0 <= k < u.len() && ((#[trigger] u[k]).0 == a || u[k].1 == a);
            assert(t[k] == u[k]);
            assert(is_endpoint(t, a));
        }
        if is_endpoint(t, a) {
            let k = choose|k: int| 0 <= k < t.len() && ((#[trigger] t[k]).0 == a || t[k].1 == a);
            if k < u.len() {
                assert(u[k] == t[k]);
                assert(is_endpoint(u, a));
            }
        }
        if a == x || a == y {
            assert(is_endpoint(t, a));
        }
        if a == x {
            if !m.contains_key(x) {
                assert(ku.map_values(f) =~= Seq::<u64>::empty());
            }
            assert(tuples_adjacency(t)[a] == m2[x].push(y));
        } else if a == y && !m.contains_key(a) {
            assert(tuples_adjacency(t)[a] == Seq::<u64>::empty());
            assert(ku.map_values(f) =~= Seq::<u64>::empty());
        } else if m.contains_key(a) {
            assert(tuples_adjacency(t)[a] == m[a]);
        }
    }
}

/// The node count of a graph built from edges is the largest endpoint: 0
/// for no edges, otherwise an endpoint of some edge that no endpoint exceeds.
pub proof fn law_tuples_max_attained(t: Seq<(u64, u64)>)
    ensures
        t.len() == 0 ==> tuples_max(t) == 0,
        t.len() > 0 ==> exists|k: int|
            0 <= k < t.len() && ((#[trigger] t[k]).0 == tuples_max(t) || t[k].1 == tuples_max(t)),
        forall|k: int| 0 <= k < t.len() ==> (#[trigger] t[k]).0 <= tuples_max(t) && t[k].1 <= tuples_max(t),
    decreases t.len(),
{
    if t.len() > 0 {
        let u = t.drop_last();
        law_tuples_max_attained(u);
        assert(t[t.len() - 1] == t.last());
        assert forall|k: int| 0 <= k < t.len() implies (#[trigger] t[k]).0 <= tuples_max(t) && t[k].1
            <= tuples_max(t) by {
            if k < u.len() {
                assert(t[k] == u[k]);
            }
        }
        if tuples_max(t) != t.last().0 && tuples_max(t) != t.last().1 {
            let k = choose|k: int|
                0 <= k < u.len() && ((#[trigger] u[k]).0 == tuples_max(u) || u[k].1 == tuples_max(u));
            assert(t[k] == u[k]);
        }
    }
}

/// A node without an entry in the adjacency map gets a block of its opening
/// `0` and set bit only.
pub proof fn law_absent_node_block(adj: Map<u64, Seq<u64>>, k: nat)
    requires
        k >= 1,
        !adj.contains_key(k as u64),
    ensures
        layout_data(adj, k) == layout_data(adj, (k - 1) as nat).push(0u64),
        layout_bits(adj, k) == layout_bits(adj, (k - 1) as nat).push(true),
{
    assert(layout_data(adj, k) =~= layout_data(adj, (k - 1) as nat).push(0u64));
    assert(layout_bits(adj, k) =~= layout_bits(adj, (k - 1) as nat).push(true));
}

/// The list of a node in a graph built from an adjacency map: `neighbour`
/// gives its entries of the map (none when the map has no entry for it) in
/// order, and right after them the `0` that opens the next node's list, or
/// nothing after the last node (when the stored sequence holds at least two
/// distinct symbols).
pub proof fn law_neighbours_are_list(
    g: Graph,
    adj: Map<u64, Seq<u64>>,
    max_node: u64,
    node: u64,
)
    requires
        g.built_from(adj, max_node),
        g.tree.alphabet@.len() >= 2,
        1 <= node <= max_node,
    ensures
        ({
            let list = if adj.contains_key(node) {
                adj[node]
            } else {
                Seq::<u64>::empty()
            };
            &&& forall|i: u64|
                1 <= i <= list.len() ==> #[trigger] g.neighbour_spec(node, i) == Some(
                    list[i - 1],
                )
            &&& g.block_start(node) + list.len() + 1 <= u64::MAX
            &&& g.neighbour_spec(node, (list.len() + 1) as u64) == (if node < max_node {
                Some(0u64)
            } else {
                None
            })
        }),
{
    let n = max_node as nat;
    let list = successors(adj, node as int);
    lemma_block(adj, n, node as int);
    lemma_layout_len(adj, n);
    let start = layout_data(adj, (node - 1) as nat).len() as int;
    lemma_kth_unique(bit_seq(g.bits), true, node as int, start, g.block_start(node));
    assert forall|i: u64| 1 <= i <= list.len() implies #[trigger] g.neighbour_spec(node, i) == Some(
        list[i - 1],
    ) by {
        assert(layout_data(adj, n)[start + 1 + (i - 1)] == list[i - 1]);
    }
    assert(layout_data(adj, node as nat) == layout_data(adj, (node - 1) as nat).push(0u64) + list);
    let end = start + 1 + list.len();
    if node < max_node {
        lemma_block(adj, n, node + 1);
        assert(layout_data(adj, node as nat).len() == end);
    } else {
        assert(layout_data(adj, n).len() == end);
    }
}

/// In a graph built by `new_tuple` from a list of edges, `neighbour` gives
/// for an endpoint `a` exactly the targets of the edges that leave `a`, in
/// input order, followed by the `0` that opens the next node's list, or by
/// nothing for the largest endpoint (when the stored sequence holds at
/// least two distinct symbols).
pub proof fn law_tuple_neighbours(g: Graph, t: Seq<(u64, u64)>, a: u64)
    requires
        g.built_from(tuples_adjacency(t), tuples_max(t)),
        g.tree.alphabet@.len() >= 2,
        forall|k: int| 0 <= k < t.len() ==> (#[trigger] t[k]).0 != 0 && t[k].1 != 0,
        is_endpoint(t, a),
    ensures
        ({
            let targets = keep(t, leaves_from(a)).map_values(|e: (u64, u64)| edge_target(e));
            &&& 1 <= a <= g.max_node
            &&& forall|i: u64|
                1 <= i <= targets.len() ==> #[trigger] g.neighbour_spec(a, i) == Some(
                    targets[i - 1],
                )
            &&& g.neighbour_spec(a, (targets.len() + 1) as u64) == (if a < g.max_node {
                Some(0u64)
            } else {
                None
            })
        }),
{
    law_tuples_adjacency_exact(t, a);
    law_tuples_max_attained(t);
    let k = choose|k: int| 0 <= k < t.len() && ((#[trigger] t[k]).0 == a || t[k].1 == a);
    assert(t[k].0 != 0 && t[k].1 != 0);
    law_neighbours_are_list(g, tuples_adjacency(t), tuples_max(t), a);
}

} // verus!
