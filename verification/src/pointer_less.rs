use crate::alphabet::{contains_symbol, sorted_alphabet, strictly_increasing};
use crate::bits::{
    lemma_count_contains, lemma_count_take_le, lemma_kth_unique,
    bit_seq, bitvec_get, bitvec_new, bitvec_push, count, is_kth, lemma_count_le_len,
    lemma_count_prefix_mono, lemma_count_repeat, lemma_count_step, lemma_take_all, BitVector,
};
use crate::partition::{
    in_seq, interleave, keep, lemma_interleave_count_ones, lemma_interleave_count_zeros,
    lemma_interleave_kth_ones, lemma_interleave_kth_zeros, lemma_keep_all, lemma_keep_const,
    lemma_keep_ext, lemma_keep_keep, lemma_keep_push, lemma_keep_satisfies, lemma_partition,
    both, negate,
};
use crate::pointer::PointerWaveletTree;
use crate::symbol::Symbol;
use crate::traits::WaveletTree;
use vstd::prelude::*;

verus! {

// ----- the shape of the tree -----

/// The power of two reached by doubling `p` while it stays below half of `m`.
pub open spec fn pow2_below_from(p: nat, m: nat) -> nat
    decreases m - p,
{
    if p >= 1 && 2 * p < m {
        pow2_below_from(2 * p, m)
    } else {
        p
    }
}

/// How many of `m` symbols go to the left child: the largest power of two
/// below `m`.
pub open spec fn left_size(m: nat) -> nat {
    pow2_below_from(1, m)
}

proof fn lemma_pow2_below_from(p: nat, m: nat)
    requires
        1 <= p < m,
    ensures
        p <= pow2_below_from(p, m) < m,
        m <= 2 * pow2_below_from(p, m),
    decreases m - p,
{
    if 2 * p < m {
        lemma_pow2_below_from(2 * p, m);
    }
}

/// The first symbol index of the right child of the node over `lo..hi`.
pub open spec fn split_point(lo: int, hi: int) -> int {
    lo + left_size((hi - lo) as nat)
}

/// Both children of an inner node are non-empty.
pub proof fn lemma_split(lo: int, hi: int)
    requires
        hi - lo >= 2,
    ensures
        lo < split_point(lo, hi) < hi,
{
    lemma_pow2_below_from(1, (hi - lo) as nat);
}

/// The symbol ranges of the inner nodes at depth `d` below the node over
/// `lo..hi`, from left to right.
pub open spec fn nodes_at(lo: int, hi: int, d: nat) -> Seq<(int, int)>
    decreases d,
{
    if hi - lo <= 1 {
        Seq::empty()
    } else if d == 0 {
        seq![(lo, hi)]
    } else {
        let m = split_point(lo, hi);
        nodes_at(lo, m, (d - 1) as nat) + nodes_at(m, hi, (d - 1) as nat)
    }
}

/// The number of levels of inner nodes below the node over `lo..hi`.
pub open spec fn tree_height(lo: int, hi: int) -> nat
    decreases hi - lo,
{
    if hi - lo <= 1 {
        0
    } else {
        proof {
            lemma_split(lo, hi);
        }
        let m = split_point(lo, hi);
        let l = tree_height(lo, m);
        let r = tree_height(m, hi);
        1 + if l >= r {
            l
        } else {
            r
        }
    }
}

/// Concatenation of a sequence of sequences.
pub open spec fn concat_all<A>(x: Seq<Seq<A>>) -> Seq<A>
    decreases x.len(),
{
    if x.len() == 0 {
        Seq::empty()
    } else {
        concat_all(x.drop_last()) + x.last()
    }
}

pub proof fn lemma_concat_add<A>(x: Seq<Seq<A>>, y: Seq<Seq<A>>)
    ensures
        concat_all(x + y) == concat_all(x) + concat_all(y),
    decreases y.len(),
{
    if y.len() == 0 {
        assert(x + y =~= x);
        assert(concat_all(x) + concat_all(y) =~= concat_all(x));
    } else {
        lemma_concat_add(x, y.drop_last());
        assert((x + y).drop_last() =~= x + y.drop_last());
        assert(concat_all(x) + concat_all(y) =~= concat_all(x) + concat_all(y.drop_last()) + y.last());
    }
}

/// A single part.
pub proof fn lemma_concat_single<A>(x: Seq<A>)
    ensures
        concat_all(seq![x]) == x,
{
    assert(seq![x].drop_last() =~= Seq::<Seq<A>>::empty());
    assert(concat_all(Seq::<Seq<A>>::empty()) == Seq::<A>::empty());
    assert(Seq::<A>::empty() + x =~= x);
}

/// The prefix of `t` parts and the part after it.
pub proof fn lemma_concat_take_step<A>(x: Seq<Seq<A>>, t: int)
    requires
        0 <= t < x.len(),
    ensures
        concat_all(x.take(t + 1)) == concat_all(x.take(t)) + x[t],
{
    assert(x.take(t + 1).drop_last() =~= x.take(t));
}

/// Part `t` sits in the concatenation right after the parts before it.
pub proof fn lemma_concat_segment<A>(x: Seq<Seq<A>>, t: int)
    requires
        0 <= t < x.len(),
    ensures
        concat_all(x.take(t)).len() + x[t].len() <= concat_all(x).len(),
        concat_all(x).subrange(
            concat_all(x.take(t)).len() as int,
            (concat_all(x.take(t)).len() + x[t].len()) as int,
        ) == x[t],
{
    lemma_concat_take_step(x, t);
    assert(x =~= x.take(t + 1) + x.skip(t + 1));
    lemma_concat_add(x.take(t + 1), x.skip(t + 1));
    assert(concat_all(x).subrange(
        concat_all(x.take(t)).len() as int,
        (concat_all(x.take(t)).len() + x[t].len()) as int,
    ) =~= x[t]);
}

/// One level further down, the inner nodes are the inner children of the
/// nodes of this level, in order.
pub proof fn lemma_nodes_next(lo: int, hi: int, d: nat)
    ensures
        nodes_at(lo, hi, d + 1) == concat_all(
            nodes_at(lo, hi, d).map_values(|n: (int, int)| nodes_at(n.0, n.1, 1)),
        ),
    decreases d,
{
    let f = |n: (int, int)| nodes_at(n.0, n.1, 1);
    if hi - lo <= 1 {
        assert(nodes_at(lo, hi, d).map_values(f) =~= Seq::<Seq<(int, int)>>::empty());
    } else if d == 0 {
        assert(nodes_at(lo, hi, 0).map_values(f) =~= seq![nodes_at(lo, hi, 1)]);
        lemma_concat_single(nodes_at(lo, hi, 1));
    } else {
        let m = split_point(lo, hi);
        lemma_nodes_next(lo, m, (d - 1) as nat);
        lemma_nodes_next(m, hi, (d - 1) as nat);
        let x = nodes_at(lo, m, (d - 1) as nat);
        let y = nodes_at(m, hi, (d - 1) as nat);
        assert((x + y).map_values(f) =~= x.map_values(f) + y.map_values(f));
        lemma_concat_add(x.map_values(f), y.map_values(f));
    }
}

/// Levels below the height hold no inner nodes; those above it do.
pub proof fn lemma_nodes_height(lo: int, hi: int, d: nat)
    ensures
        nodes_at(lo, hi, d).len() > 0 <==> d < tree_height(lo, hi),
    decreases d,
{
    if hi - lo >= 2 {
        lemma_split(lo, hi);
        if d > 0 {
            let m = split_point(lo, hi);
            lemma_nodes_height(lo, m, (d - 1) as nat);
            lemma_nodes_height(m, hi, (d - 1) as nat);
        }
    }
}

/// The height is at most the number of symbols.
pub proof fn lemma_height_bound(lo: int, hi: int)
    ensures
        tree_height(lo, hi) <= (if hi - lo >= 1 {
            hi - lo
        } else {
            1
        }),
    decreases hi - lo,
{
    if hi - lo >= 2 {
        lemma_split(lo, hi);
        let m = split_point(lo, hi);
        lemma_height_bound(lo, m);
        lemma_height_bound(m, hi);
    }
}

// ----- the bits -----

/// Non-membership in `a`, as a predicate.
pub open spec fn not_in<A>(a: Seq<A>) -> spec_fn(A) -> bool {
    |x: A| !a.contains(x)
}

/// The elements of `s` whose symbol is one of `a[lo..hi]`: the part of the
/// sequence that the node over `lo..hi` holds.
pub open spec fn range_seq<T>(a: Seq<T>, s: Seq<T>, lo: int, hi: int) -> Seq<T> {
    keep(s, in_seq(a.subrange(lo, hi)))
}

/// The bits of the node over `lo..hi`: set for an element that does not go
/// to the left child.
pub open spec fn node_bits<T>(a: Seq<T>, s: Seq<T>, lo: int, hi: int) -> Seq<bool> {
    range_seq(a, s, lo, hi).map_values(not_in(a.subrange(lo, split_point(lo, hi))))
}

/// The bits of the inner nodes at depth `d` below the node over `lo..hi`,
/// one node after the other.
pub open spec fn level_bits<T>(a: Seq<T>, s: Seq<T>, lo: int, hi: int, d: nat) -> Seq<bool>
    decreases d,
{
    if hi - lo <= 1 {
        Seq::empty()
    } else if d == 0 {
        node_bits(a, s, lo, hi)
    } else {
        let m = split_point(lo, hi);
        level_bits(a, s, lo, m, (d - 1) as nat) + level_bits(a, s, m, hi, (d - 1) as nat)
    }
}

/// The bits of the first `d` levels of the tree over `a` and `s`.
pub open spec fn layout_upto<T>(a: Seq<T>, s: Seq<T>, d: nat) -> Seq<bool>
    decreases d,
{
    if d == 0 {
        Seq::empty()
    } else {
        layout_upto(a, s, (d - 1) as nat) + level_bits(a, s, 0, a.len() as int, (d - 1) as nat)
    }
}

/// The bits of the whole tree over the symbols `a` and the sequence `s`:
/// its levels one after the other, each level its inner nodes from left to
/// right.
pub open spec fn layout<T>(a: Seq<T>, s: Seq<T>) -> Seq<bool> {
    layout_upto(a, s, tree_height(0, a.len() as int))
}

/// The bits of each inner node at a level.
pub open spec fn level_parts<T>(a: Seq<T>, s: Seq<T>, d: nat) -> Seq<Seq<bool>> {
    nodes_at(0, a.len() as int, d).map_values(|n: (int, int)| node_bits(a, s, n.0, n.1))
}

/// A level's bits are its nodes' bits, one after the other.
pub proof fn lemma_level_concat<T>(a: Seq<T>, s: Seq<T>, lo: int, hi: int, d: nat)
    ensures
        level_bits(a, s, lo, hi, d) == concat_all(
            nodes_at(lo, hi, d).map_values(|n: (int, int)| node_bits(a, s, n.0, n.1)),
        ),
    decreases d,
{
    let f = |n: (int, int)| node_bits(a, s, n.0, n.1);
    if hi - lo <= 1 {
        assert(nodes_at(lo, hi, d).map_values(f) =~= Seq::<Seq<bool>>::empty());
    } else if d == 0 {
        assert(nodes_at(lo, hi, 0).map_values(f) =~= seq![node_bits(a, s, lo, hi)]);
        lemma_concat_single(node_bits(a, s, lo, hi));
    } else {
        let m = split_point(lo, hi);
        lemma_level_concat(a, s, lo, m, (d - 1) as nat);
        lemma_level_concat(a, s, m, hi, (d - 1) as nat);
        let x = nodes_at(lo, m, (d - 1) as nat);
        let y = nodes_at(m, hi, (d - 1) as nat);
        assert((x + y).map_values(f) =~= x.map_values(f) + y.map_values(f));
        lemma_concat_add(x.map_values(f), y.map_values(f));
    }
}

/// A shorter layout is a prefix of a longer one.
pub proof fn lemma_layout_prefix<T>(a: Seq<T>, s: Seq<T>, d: nat, e: nat)
    requires
        d <= e,
    ensures
        layout_upto(a, s, d).len() <= layout_upto(a, s, e).len(),
        layout_upto(a, s, e).take(layout_upto(a, s, d).len() as int) == layout_upto(a, s, d),
    decreases e - d,
{
    if d < e {
        lemma_layout_prefix(a, s, d, (e - 1) as nat);
        let p = layout_upto(a, s, (e - 1) as nat);
        assert(layout_upto(a, s, e).take(layout_upto(a, s, d).len() as int) =~= p.take(
            layout_upto(a, s, d).len() as int,
        ));
    } else {
        assert(layout_upto(a, s, e).take(layout_upto(a, s, d).len() as int) =~= layout_upto(
            a,
            s,
            d,
        ));
    }
}

/// Level `d`'s bits sit in the layout right after the levels above it.
pub proof fn lemma_layout_level<T>(a: Seq<T>, s: Seq<T>, d: nat)
    requires
        d < tree_height(0, a.len() as int),
    ensures
        layout_upto(a, s, d).len() + level_bits(a, s, 0, a.len() as int, d).len() <= layout(
            a,
            s,
        ).len(),
        layout(a, s).subrange(
            layout_upto(a, s, d).len() as int,
            (layout_upto(a, s, d).len() + level_bits(a, s, 0, a.len() as int, d).len()) as int,
        ) == level_bits(a, s, 0, a.len() as int, d),
{
    lemma_layout_prefix(a, s, d + 1, tree_height(0, a.len() as int));
    let big = layout(a, s);
    let small = layout_upto(a, s, d + 1);
    assert(small == layout_upto(a, s, d) + level_bits(a, s, 0, a.len() as int, d));
    assert(big.subrange(
        layout_upto(a, s, d).len() as int,
        (layout_upto(a, s, d).len() + level_bits(a, s, 0, a.len() as int, d).len()) as int,
    ) =~= small.subrange(
        layout_upto(a, s, d).len() as int,
        (layout_upto(a, s, d).len() + level_bits(a, s, 0, a.len() as int, d).len()) as int,
    ));
    assert(small.subrange(
        layout_upto(a, s, d).len() as int,
        (layout_upto(a, s, d).len() + level_bits(a, s, 0, a.len() as int, d).len()) as int,
    ) =~= level_bits(a, s, 0, a.len() as int, d));
}

/// An inner node's part of the sequence is the interleaving, along its
/// bits, of its children's parts.
pub proof fn lemma_decode<T: Symbol>(a: Seq<T>, s: Seq<T>, lo: int, hi: int)
    requires
        strictly_increasing(a),
        0 <= lo,
        hi <= a.len(),
        hi - lo >= 2,
    ensures
        node_bits(a, s, lo, hi).len() == range_seq(a, s, lo, hi).len(),
        count(node_bits(a, s, lo, hi), false) == range_seq(a, s, lo, split_point(lo, hi)).len(),
        count(node_bits(a, s, lo, hi), true) == range_seq(a, s, split_point(lo, hi), hi).len(),
        keep(range_seq(a, s, lo, hi), negate(not_in(a.subrange(lo, split_point(lo, hi)))))
            == range_seq(a, s, lo, split_point(lo, hi)),
        keep(range_seq(a, s, lo, hi), not_in(a.subrange(lo, split_point(lo, hi)))) == range_seq(
            a,
            s,
            split_point(lo, hi),
            hi,
        ),
        range_seq(a, s, lo, hi) == interleave(
            node_bits(a, s, lo, hi),
            range_seq(a, s, lo, split_point(lo, hi)),
            range_seq(a, s, split_point(lo, hi), hi),
        ),
{
    lemma_split(lo, hi);
    let m = split_point(lo, hi);
    let ah = a.subrange(lo, hi);
    let al = a.subrange(lo, m);
    let ar = a.subrange(m, hi);
    let q = range_seq(a, s, lo, hi);
    lemma_partition(q, not_in(al));
    lemma_keep_keep(s, in_seq(ah), negate(not_in(al)));
    lemma_keep_keep(s, in_seq(ah), not_in(al));
    assert forall|x: T| #[trigger] in_seq(al)(x) == both(in_seq(ah), negate(not_in(al)))(x) by {
        if al.contains(x) {
            let j = choose|j: int| 0 <= j < al.len() && al[j] == x;
            assert(ah[j] == x);
        }
    }
    lemma_keep_ext(s, in_seq(al), both(in_seq(ah), negate(not_in(al))));
    assert forall|x: T| #[trigger] in_seq(ar)(x) == both(in_seq(ah), not_in(al))(x) by {
        if ar.contains(x) {
            let j = choose|j: int| 0 <= j < ar.len() && ar[j] == x;
            assert(ah[j + (m - lo)] == x);
            if al.contains(x) {
                let k = choose|k: int| 0 <= k < al.len() && al[k] == x;
                assert(a[lo + k].value() < a[m + j].value());
            }
        }
        if ah.contains(x) && !al.contains(x) {
            let j = choose|j: int| 0 <= j < ah.len() && ah[j] == x;
            if j < m - lo {
                assert(al[j] == x);
            } else {
                assert(ar[j - (m - lo)] == x);
            }
        }
    }
    lemma_keep_ext(s, in_seq(ar), both(in_seq(ah), not_in(al)));
}

/// A node over a single symbol holds copies of that symbol only.
pub proof fn lemma_single_range<T>(a: Seq<T>, s: Seq<T>, lo: int)
    requires
        0 <= lo < a.len(),
    ensures
        range_seq(a, s, lo, lo + 1) == Seq::new(
            range_seq(a, s, lo, lo + 1).len(),
            |i: int| a[lo],
        ),
{
    let a1 = a.subrange(lo, lo + 1);
    let x0 = a[lo];
    assert forall|x: T| #[trigger] in_seq(a1)(x) == (x == x0) by {
        if x == x0 {
            assert(a1[0] == x);
        }
    }
    lemma_keep_ext(s, in_seq(a1), |x: T| x == x0);
    lemma_keep_const(s, x0);
}

/// No level below a node holds more bits than the node's part of the sequence.
pub proof fn lemma_level_len<T: Symbol>(a: Seq<T>, s: Seq<T>, lo: int, hi: int, d: nat)
    requires
        strictly_increasing(a),
        0 <= lo,
        hi <= a.len(),
    ensures
        level_bits(a, s, lo, hi, d).len() <= range_seq(a, s, lo, hi).len(),
    decreases d,
{
    if hi - lo >= 2 {
        lemma_decode(a, s, lo, hi);
        lemma_split(lo, hi);
        if d > 0 {
            let m = split_point(lo, hi);
            lemma_level_len(a, s, lo, m, (d - 1) as nat);
            lemma_level_len(a, s, m, hi, (d - 1) as nat);
            crate::bits::lemma_count_bools(node_bits(a, s, lo, hi));
        }
    }
}

/// The first `d` levels hold at most `d` bits per element of the sequence.
pub proof fn lemma_layout_len<T: Symbol>(a: Seq<T>, s: Seq<T>, d: nat)
    requires
        strictly_increasing(a),
    ensures
        layout_upto(a, s, d).len() <= d * s.len(),
    decreases d,
{
    if d > 0 {
        lemma_layout_len(a, s, (d - 1) as nat);
        lemma_level_len(a, s, 0, a.len() as int, (d - 1) as nat);
        lemma_keep_satisfies(s, in_seq(a.subrange(0, a.len() as int)));
        assert(d * s.len() == (d - 1) * s.len() + s.len()) by (nonlinear_arith);
    }
}

/// There are no more distinct symbols than elements.
pub proof fn lemma_alphabet_len<T: Symbol>(a: Seq<T>, s: Seq<T>)
    requires
        strictly_increasing(a),
        forall|x: T| a.contains(x) <==> s.contains(x),
    ensures
        a.len() <= s.len(),
{
    assert(a.no_duplicates()) by {
        assert forall|i: int, j: int| 0 <= i < a.len() && 0 <= j < a.len() && i != j implies a[i]
            != a[j] by {
            if i < j {
                assert(a[i].value() < a[j].value());
            } else {
                assert(a[j].value() < a[i].value());
            }
        }
    }
    a.unique_seq_to_set();
    s.lemma_cardinality_of_set();
    assert(a.to_set().subset_of(s.to_set()));
    vstd::set_lib::lemma_len_subset(a.to_set(), s.to_set());
}

/// The whole layout fits in the positions that a `u64` addresses.
pub proof fn lemma_layout_fits<T: Symbol>(a: Seq<T>, s: Seq<T>)
    requires
        strictly_increasing(a),
        forall|x: T| a.contains(x) <==> s.contains(x),
        s.len() <= u32::MAX,
    ensures
        layout(a, s).len() < u64::MAX,
        tree_height(0, a.len() as int) <= u32::MAX,
{
    lemma_alphabet_len(a, s);
    lemma_height_bound(0, a.len() as int);
    let h = tree_height(0, a.len() as int);
    lemma_layout_len(a, s, h);
    assert(h * s.len() <= 0xffff_ffff * 0xffff_ffff) by (nonlinear_arith)
        requires
            h <= 0xffff_ffff,
            s.len() <= 0xffff_ffff,
    ;
}

/// Every inner node lies within the range it descends from and covers at
/// least two symbols.
pub proof fn lemma_nodes_valid(lo: int, hi: int, d: nat)
    ensures
        forall|u: int|
            0 <= u < nodes_at(lo, hi, d).len() ==> lo <= (#[trigger] nodes_at(lo, hi, d)[u]).0
                && nodes_at(lo, hi, d)[u].1 <= hi && nodes_at(lo, hi, d)[u].1 - nodes_at(
                lo,
                hi,
                d,
            )[u].0 >= 2,
    decreases d,
{
    if hi - lo >= 2 && d > 0 {
        lemma_split(lo, hi);
        let m = split_point(lo, hi);
        lemma_nodes_valid(lo, m, (d - 1) as nat);
        lemma_nodes_valid(m, hi, (d - 1) as nat);
        let x = nodes_at(lo, m, (d - 1) as nat);
        let y = nodes_at(m, hi, (d - 1) as nat);
        assert forall|u: int| 0 <= u < nodes_at(lo, hi, d).len() implies lo <= (
        #[trigger] nodes_at(lo, hi, d)[u]).0 && nodes_at(lo, hi, d)[u].1 <= hi && nodes_at(
            lo,
            hi,
            d,
        )[u].1 - nodes_at(lo, hi, d)[u].0 >= 2 by {
            if u < x.len() {
                assert(nodes_at(lo, hi, d)[u] == x[u]);
            } else {
                assert(nodes_at(lo, hi, d)[u] == y[u - x.len()]);
            }
        }
    }
}

/// A part of a concatenation stored at `start` in a larger sequence sits
/// at its offset there.
pub proof fn lemma_part_in<A>(big: Seq<A>, start: int, parts: Seq<Seq<A>>, u: int)
    requires
        0 <= start,
        start + concat_all(parts).len() <= big.len(),
        big.subrange(start, start + concat_all(parts).len()) == concat_all(parts),
        0 <= u < parts.len(),
    ensures
        concat_all(parts.take(u)).len() + parts[u].len() <= concat_all(parts).len(),
        big.subrange(
            start + concat_all(parts.take(u)).len(),
            start + concat_all(parts.take(u)).len() + parts[u].len(),
        ) == parts[u],
{
    lemma_concat_segment(parts, u);
    let off = concat_all(parts.take(u)).len() as int;
    assert(big.subrange(start + off, start + off + parts[u].len()) =~= concat_all(parts).subrange(
        off,
        off + parts[u].len(),
    ));
}

/// The root holds the whole sequence when every element is a symbol of the alphabet.
pub proof fn lemma_root_range<T>(a: Seq<T>, s: Seq<T>)
    requires
        forall|x: T| a.contains(x) <==> s.contains(x),
    ensures
        range_seq(a, s, 0, a.len() as int) == s,
{
    assert(a.subrange(0, a.len() as int) =~= a);
    assert forall|i: int| 0 <= i < s.len() implies #[trigger] in_seq(a)(s[i]) by {
        assert(s.contains(s[i]));
    }
    lemma_keep_all(s, in_seq(a));
}

/// The bits of a node, read from where they are stored.
pub proof fn lemma_node_prefix(big: Seq<bool>, seg: int, b: Seq<bool>, p: int)
    requires
        0 <= seg,
        0 <= p < b.len(),
        seg + b.len() <= big.len(),
        big.subrange(seg, seg + b.len()) == b,
    ensures
        big.subrange(seg, seg + p) == b.take(p),
        big[seg + p] == b[p],
        count(b.take(p), false) == p - count(b.take(p), true),
        count(b.take(p), false) + (if b[p] { 0int } else { 1int }) <= count(b, false),
        count(b.take(p), true) + (if b[p] { 1int } else { 0int }) <= count(b, true),
{
    assert(big.subrange(seg, seg + p) =~= b.take(p));
    assert(big[seg + p] == big.subrange(seg, seg + b.len())[p]);
    crate::bits::lemma_count_bools(b.take(p));
    lemma_count_step(b, false, p);
    lemma_count_step(b, true, p);
    lemma_count_prefix_mono(b, false, p + 1, b.len() as int);
    lemma_count_prefix_mono(b, true, p + 1, b.len() as int);
    lemma_take_all(b);
}

/// Where position `p` of an inner node's part continues in its children.
pub proof fn lemma_access_step<T: Symbol>(a: Seq<T>, s: Seq<T>, lo: int, hi: int, p: int)
    requires
        strictly_increasing(a),
        0 <= lo,
        hi <= a.len(),
        hi - lo >= 2,
        0 <= p < range_seq(a, s, lo, hi).len(),
    ensures
        ({
            let b = node_bits(a, s, lo, hi);
            let m = split_point(lo, hi);
            let c1 = count(b.take(p), true) as int;
            let c0 = p - c1;
            &&& p < b.len()
            &&& c0 == count(b.take(p), false)
            &&& !b[p] ==> 0 <= c0 < range_seq(a, s, lo, m).len() && range_seq(a, s, lo, hi)[p]
                == range_seq(a, s, lo, m)[c0]
            &&& b[p] ==> 0 <= c1 < range_seq(a, s, m, hi).len() && range_seq(a, s, lo, hi)[p]
                == range_seq(a, s, m, hi)[c1]
        }),
{
    let b = node_bits(a, s, lo, hi);
    lemma_decode(a, s, lo, hi);
    crate::bits::lemma_count_bools(b.take(p));
    lemma_count_step(b, false, p);
    lemma_count_step(b, true, p);
    lemma_count_prefix_mono(b, false, p + 1, b.len() as int);
    lemma_count_prefix_mono(b, true, p + 1, b.len() as int);
    lemma_take_all(b);
}

/// A symbol lies on at most one side of a split.
pub proof fn lemma_sides_disjoint<T: Symbol>(a: Seq<T>, lo: int, m: int, hi: int, e: T)
    requires
        strictly_increasing(a),
        0 <= lo <= m <= hi <= a.len(),
    ensures
        a.subrange(lo, hi).contains(e) <==> (a.subrange(lo, m).contains(e) || a.subrange(
            m,
            hi,
        ).contains(e)),
        a.subrange(lo, m).contains(e) ==> !a.subrange(m, hi).contains(e),
{
    if a.subrange(lo, m).contains(e) && a.subrange(m, hi).contains(e) {
        let i = choose|i: int| 0 <= i < m - lo && a.subrange(lo, m)[i] == e;
        let j = choose|j: int| 0 <= j < hi - m && a.subrange(m, hi)[j] == e;
        assert(a[lo + i].value() < a[m + j].value());
    }
    if a.subrange(lo, hi).contains(e) {
        let i = choose|i: int| 0 <= i < hi - lo && a.subrange(lo, hi)[i] == e;
        if i < m - lo {
            assert(a.subrange(lo, m)[i] == e);
        } else {
            assert(a.subrange(m, hi)[i - (m - lo)] == e);
        }
    }
    if a.subrange(lo, m).contains(e) {
        let i = choose|i: int| 0 <= i < m - lo && a.subrange(lo, m)[i] == e;
        assert(a.subrange(lo, hi)[i] == e);
    }
    if a.subrange(m, hi).contains(e) {
        let j = choose|j: int| 0 <= j < hi - m && a.subrange(m, hi)[j] == e;
        assert(a.subrange(lo, hi)[j + (m - lo)] == e);
    }
}

/// How a count over a prefix of an inner node's part continues in the
/// child that holds the symbol.
pub proof fn lemma_rank_step<T: Symbol>(a: Seq<T>, s: Seq<T>, lo: int, hi: int, p: int, e: T)
    requires
        strictly_increasing(a),
        0 <= lo,
        hi <= a.len(),
        hi - lo >= 2,
        0 <= p <= range_seq(a, s, lo, hi).len(),
        a.subrange(lo, hi).contains(e),
    ensures
        ({
            let b = node_bits(a, s, lo, hi);
            let m = split_point(lo, hi);
            let c1 = count(b.take(p), true) as int;
            let c0 = p - c1;
            &&& p <= b.len()
            &&& c0 == count(b.take(p), false)
            &&& a.subrange(lo, m).contains(e) ==> 0 <= c0 <= range_seq(a, s, lo, m).len() && count(
                range_seq(a, s, lo, hi).take(p),
                e,
            ) == count(range_seq(a, s, lo, m).take(c0), e)
            &&& !a.subrange(lo, m).contains(e) ==> a.subrange(m, hi).contains(e) && 0 <= c1
                <= range_seq(a, s, m, hi).len() && count(range_seq(a, s, lo, hi).take(p), e)
                == count(range_seq(a, s, m, hi).take(c1), e)
        }),
{
    let b = node_bits(a, s, lo, hi);
    lemma_split(lo, hi);
    let m = split_point(lo, hi);
    lemma_decode(a, s, lo, hi);
    lemma_sides_disjoint(a, lo, m, hi, e);
    crate::bits::lemma_count_bools(b.take(p));
    lemma_count_prefix_mono(b, false, p, b.len() as int);
    lemma_count_prefix_mono(b, true, p, b.len() as int);
    lemma_take_all(b);
    let ql = range_seq(a, s, lo, m);
    let qr = range_seq(a, s, m, hi);
    lemma_keep_satisfies(s, in_seq(a.subrange(lo, m)));
    lemma_keep_satisfies(s, in_seq(a.subrange(m, hi)));
    if a.subrange(lo, m).contains(e) {
        assert forall|j: int| 0 <= j < qr.len() implies qr[j] != e by {
            assert(in_seq(a.subrange(m, hi))(qr[j]));
        }
        lemma_interleave_count_zeros(b, ql, qr, e, p);
    } else {
        assert forall|j: int| 0 <= j < ql.len() implies ql[j] != e by {
            assert(in_seq(a.subrange(lo, m))(ql[j]));
        }
        lemma_interleave_count_ones(b, ql, qr, e, p);
    }
}

/// Reading a prefix of a node's bits from where they are stored.
pub proof fn lemma_node_take(big: Seq<bool>, seg: int, b: Seq<bool>, p: int)
    requires
        0 <= seg,
        0 <= p <= b.len(),
        seg + b.len() <= big.len(),
        big.subrange(seg, seg + b.len()) == b,
    ensures
        big.subrange(seg, seg + p) == b.take(p),
{
    assert(big.subrange(seg, seg + p) =~= b.take(p));
}

/// One step of a descent towards `e`'s leaf: `entry` records where the
/// bits of the inner node over `node` are stored, how many there are, and
/// whether the descent went right, into `child`.
pub open spec fn step_ok<T>(
    a: Seq<T>,
    s: Seq<T>,
    bits: Seq<bool>,
    e: T,
    entry: (u64, u64, bool),
    node: (int, int),
    child: (int, int),
) -> bool {
    let lo = node.0;
    let hi = node.1;
    let m = split_point(lo, hi);
    &&& 0 <= lo
    &&& hi <= a.len()
    &&& hi - lo >= 2
    &&& entry.0 + entry.1 <= bits.len()
    &&& entry.1 == node_bits(a, s, lo, hi).len()
    &&& bits.subrange(entry.0 as int, entry.0 + entry.1) == node_bits(a, s, lo, hi)
    &&& child == (if entry.2 {
        (m, hi)
    } else {
        (lo, m)
    })
    &&& (entry.2 <==> !a.subrange(lo, m).contains(e))
}

/// Below the tree's height the levels are empty, so the layout stops growing.
pub proof fn lemma_layout_stable<T>(a: Seq<T>, s: Seq<T>, d: nat)
    requires
        d >= tree_height(0, a.len() as int),
    ensures
        layout_upto(a, s, d) == layout(a, s),
    decreases d,
{
    if d > tree_height(0, a.len() as int) {
        lemma_layout_stable(a, s, (d - 1) as nat);
        lemma_nodes_height(0, a.len() as int, (d - 1) as nat);
        lemma_level_concat(a, s, 0, a.len() as int, (d - 1) as nat);
        assert(nodes_at(0, a.len() as int, (d - 1) as nat).map_values(
            |n: (int, int)| node_bits(a, s, n.0, n.1),
        ) =~= Seq::<Seq<bool>>::empty());
        assert(layout_upto(a, s, d) =~= layout_upto(a, s, (d - 1) as nat));
    }
}

/// A frontier during construction: each inner node of the level with its
/// symbol range and its part of the sequence.
pub open spec fn frontier_items_match<T>(
    a: Seq<T>,
    s: Seq<T>,
    f: Seq<(usize, usize, Vec<T>)>,
    nodes: Seq<(int, int)>,
) -> bool {
    &&& f.len() == nodes.len()
    &&& forall|u: int|
        0 <= u < f.len() ==> (#[trigger] f[u]).0 == nodes[u].0 && f[u].1 == nodes[u].1 && f[u].2@
            == range_seq(a, s, nodes[u].0, nodes[u].1)
}

/// The frontier of a level: for each inner node, its symbol range and the
/// length of its part of the sequence.
pub open spec fn frontier_matches<T>(
    a: Seq<T>,
    s: Seq<T>,
    f: Seq<(usize, usize, u64)>,
    nodes: Seq<(int, int)>,
) -> bool {
    &&& f.len() == nodes.len()
    &&& forall|u: int|
        0 <= u < f.len() ==> (#[trigger] f[u]).0 == nodes[u].0 && f[u].1 == nodes[u].1 && f[u].2
            == range_seq(a, s, nodes[u].0, nodes[u].1).len()
}

/// The largest power of two below `m`.
fn left_size_exec(m: usize) -> (r: usize)
    requires
        m >= 2,
    ensures
        r == left_size(m as nat),
        1 <= r < m,
{
    let mut p: usize = 1;
    proof {
        lemma_pow2_below_from(1, m as nat);
    }
    while p < m - p
        invariant
            1 <= p < m,
            pow2_below_from(p as nat, m as nat) == left_size(m as nat),
        decreases m - p,
    {
        p = p * 2;
    }
    p
}

/// A level-packed wavelet tree: the bits of all inner nodes stored in one
/// bit vector, level after level, each level from left to right. A node
/// over `n` symbols sends the first `2^k` of them (the largest power of two
/// below `n`) to its left child.
pub struct PointerlessWaveletTree<T> {
    /// The distinct symbols of the stored sequence, in increasing order.
    pub alphabet: Vec<T>,
    /// The length of the stored sequence.
    pub data_size: u32,
    /// The packed bits of the inner nodes.
    pub bits: BitVector,
    /// The stored sequence.
    pub sequence: Ghost<Seq<T>>,
}

impl<T: Symbol> View for PointerlessWaveletTree<T> {
    type V = Seq<T>;

    open spec fn view(&self) -> Seq<T> {
        self.sequence@
    }
}

impl<T: Symbol> PointerlessWaveletTree<T> {
    /// Invariant: the alphabet is the increasing list of the distinct
    /// symbols of the sequence, `data_size` its length, and the bits are the
    /// layout of the tree over them.
    pub open spec fn wf(self) -> bool {
        &&& strictly_increasing(self.alphabet@)
        &&& forall|x: T| self.alphabet@.contains(x) <==> self@.contains(x)
        &&& self@.len() == self.data_size
        &&& bit_seq(self.bits) == layout(self.alphabet@, self@)
    }

    /// The number of positions in `l..r` that hold `x`.
    fn number_of(&self, l: u64, r: u64, x: bool) -> (n: u64)
        requires
            l <= r <= bit_seq(self.bits).len(),
        ensures
            n == count(bit_seq(self.bits).subrange(l as int, r as int), x),
    {
        let ghost b = bit_seq(self.bits);
        let mut result: u64 = 0;
        let mut i: u64 = l;
        while i < r
            invariant
                l <= i <= r <= b.len(),
                b == bit_seq(self.bits),
                result == count(b.subrange(l as int, i as int), x),
                result <= i - l,
            decreases r - i,
        {
            proof {
                assert(b.subrange(l as int, i + 1).drop_last() =~= b.subrange(l as int, i as int));
            }
            if bitvec_get(&self.bits, i) == x {
                result = result + 1;
            }
            i = i + 1;
        }
        result
    }

    /// The offset, within the `len` bits from `start`, of the `k`-th one that equals `x`.
    fn select_in(&self, start: u64, len: u64, x: bool, k: u64) -> (p: u64)
        requires
            start + len <= bit_seq(self.bits).len(),
            start + len <= u64::MAX,
            1 <= k <= count(bit_seq(self.bits).subrange(start as int, start + len), x),
        ensures
            is_kth(bit_seq(self.bits).subrange(start as int, start + len), x, k as int, p as int),
    {
        let ghost seg = bit_seq(self.bits).subrange(start as int, start + len);
        let mut c: u64 = 0;
        let mut j: u64 = 0;
        while j < len
            invariant
                start + len <= bit_seq(self.bits).len(),
                start + len <= u64::MAX,
                seg == bit_seq(self.bits).subrange(start as int, start + len),
                j <= len,
                c == count(seg.take(j as int), x),
                c < k,
                k <= count(seg, x),
            decreases len - j,
        {
            proof {
                lemma_count_step(seg, x, j as int);
            }
            if bitvec_get(&self.bits, start + j) == x {
                c = c + 1;
                if c == k {
                    return j;
                }
            }
            j = j + 1;
        }
        proof {
            lemma_take_all(seg);
        }
        0
    }

    /// Walks the inner nodes of level `d`, whose bits start at `level_start`:
    /// returns the next level's frontier, the offset within the level of
    /// node `t`, the positions in the next frontier of node `t`'s left and
    /// right children (when they are inner nodes), and the level's length.
    #[verifier::rlimit(40)]
    fn step_level(
        &self,
        frontier: &Vec<(usize, usize, u64)>,
        level_start: u64,
        Ghost(d): Ghost<nat>,
        t: usize,
    ) -> (res: (Vec<(usize, usize, u64)>, u64, usize, usize, u64))
        requires
            self.wf(),
            frontier_matches(
                self.alphabet@,
                self@,
                frontier@,
                nodes_at(0, self.alphabet@.len() as int, d),
            ),
            t < frontier@.len(),
            level_start == layout_upto(self.alphabet@, self@, d).len(),
        ensures
            frontier_matches(
                self.alphabet@,
                self@,
                res.0@,
                nodes_at(0, self.alphabet@.len() as int, d + 1),
            ),
            res.4 == level_bits(self.alphabet@, self@, 0, self.alphabet@.len() as int, d).len(),
            level_start + res.4 <= layout(self.alphabet@, self@).len(),
            res.1 + frontier@[t as int].2 <= res.4,
            bit_seq(self.bits).subrange(
                level_start + res.1,
                level_start + res.1 + frontier@[t as int].2,
            ) == node_bits(
                self.alphabet@,
                self@,
                frontier@[t as int].0 as int,
                frontier@[t as int].1 as int,
            ),
            split_point(frontier@[t as int].0 as int, frontier@[t as int].1 as int)
                - frontier@[t as int].0 >= 2 ==> res.2 < res.0@.len() && res.0@[res.2 as int].0
                == frontier@[t as int].0 && res.0@[res.2 as int].1 == split_point(
                frontier@[t as int].0 as int,
                frontier@[t as int].1 as int,
            ),
            frontier@[t as int].1 - split_point(
                frontier@[t as int].0 as int,
                frontier@[t as int].1 as int,
            ) >= 2 ==> res.3 < res.0@.len() && res.0@[res.3 as int].0 == split_point(
                frontier@[t as int].0 as int,
                frontier@[t as int].1 as int,
            ) && res.0@[res.3 as int].1 == frontier@[t as int].1,
    {
        let ghost a = self.alphabet@;
        let ghost s = self@;
        let ghost n = a.len() as int;
        let ghost nodes = nodes_at(0, n, d);
        let ghost parts = level_parts(a, s, d);
        let ghost chl = nodes.map_values(|x: (int, int)| nodes_at(x.0, x.1, 1));
        let ghost lb = level_bits(a, s, 0, n, d);
        proof {
            lemma_nodes_height(0, n, d);
            lemma_layout_level(a, s, d);
            lemma_level_concat(a, s, 0, n, d);
            lemma_nodes_valid(0, n, d);
            lemma_nodes_next(0, n, d);
            lemma_layout_fits(a, s);
            assert(lb == concat_all(parts));
        }
        let mut next: Vec<(usize, usize, u64)> = Vec::new();
        let mut offset: u64 = 0;
        let mut t_off: u64 = 0;
        let mut t_left: usize = 0;
        let mut t_right: usize = 0;
        let mut u: usize = 0;
        while u < frontier.len()
            invariant
                self.wf(),
                a == self.alphabet@,
                s == self@,
                n == a.len(),
                nodes == nodes_at(0, n, d),
                parts == level_parts(a, s, d),
                chl == nodes.map_values(|x: (int, int)| nodes_at(x.0, x.1, 1)),
                lb == level_bits(a, s, 0, n, d),
                lb == concat_all(parts),
                frontier_matches(a, s, frontier@, nodes),
                t < frontier@.len(),
                level_start == layout_upto(a, s, d).len(),
                level_start + lb.len() <= layout(a, s).len(),
                layout(a, s).len() < u64::MAX,
                bit_seq(self.bits).subrange(level_start as int, level_start + lb.len()) == lb,
                forall|v: int|
                    0 <= v < nodes.len() ==> 0 <= (#[trigger] nodes[v]).0 && nodes[v].1 <= n
                        && nodes[v].1 - nodes[v].0 >= 2,
                u <= frontier@.len(),
                offset == concat_all(parts.take(u as int)).len(),
                frontier_matches(a, s, next@, concat_all(chl.take(u as int))),
                u > t ==> t_off == concat_all(parts.take(t as int)).len(),
                u > t ==> (split_point(frontier@[t as int].0 as int, frontier@[t as int].1 as int)
                    - frontier@[t as int].0 >= 2 ==> t_left < next@.len() && next@[t_left as int].0
                    == frontier@[t as int].0 && next@[t_left as int].1 == split_point(
                    frontier@[t as int].0 as int,
                    frontier@[t as int].1 as int,
                )),
                u > t ==> (frontier@[t as int].1 - split_point(
                    frontier@[t as int].0 as int,
                    frontier@[t as int].1 as int,
                ) >= 2 ==> t_right < next@.len() && next@[t_right as int].0 == split_point(
                    frontier@[t as int].0 as int,
                    frontier@[t as int].1 as int,
                ) && next@[t_right as int].1 == frontier@[t as int].1),
            decreases frontier.len() - u,
        {
            let (lo, hi, len) = frontier[u];
            let ghost nu = nodes[u as int];
            proof {
                lemma_part_in(bit_seq(self.bits), level_start as int, parts, u as int);
                lemma_concat_take_step(parts, u as int);
                lemma_concat_take_step(chl, u as int);
                lemma_decode(a, s, lo as int, hi as int);
                lemma_split(lo as int, hi as int);
                assert(parts[u as int] == node_bits(a, s, lo as int, hi as int));
                crate::bits::lemma_count_bools(node_bits(a, s, lo as int, hi as int));
            }
            let seg = level_start + offset;
            let zeros = self.number_of(seg, seg + len, false);
            let m = lo + left_size_exec(hi - lo);
            let ghost before = next@;
            if u == t {
                t_off = offset;
                t_left = next.len();
            }
            if m - lo >= 2 {
                next.push((lo, m, zeros));
            }
            if u == t {
                t_right = next.len();
            }
            if hi - m >= 2 {
                next.push((m, hi, len - zeros));
            }
            proof {
                let cu = chl[u as int];
                assert(cu == nodes_at(lo as int, hi as int, 1));
                assert(cu == nodes_at(lo as int, m as int, 0) + nodes_at(m as int, hi as int, 0));
                let prev = concat_all(chl.take(u as int));
                assert(concat_all(chl.take(u + 1)) == prev + cu);
                assert forall|v: int| 0 <= v < next@.len() implies (#[trigger] next@[v]).0 == (prev
                    + cu)[v].0 && next@[v].1 == (prev + cu)[v].1 && next@[v].2 == range_seq(
                    a,
                    s,
                    (prev + cu)[v].0,
                    (prev + cu)[v].1,
                ).len() by {
                    if v < before.len() {
                        assert(next@[v] == before[v]);
                    }
                }
                assert(next@.len() == (prev + cu).len());
            }
            offset = offset + len;
            u = u + 1;
        }
        proof {
            assert(parts.take(parts.len() as int) =~= parts);
            assert(chl.take(chl.len() as int) =~= chl);
            lemma_part_in(bit_seq(self.bits), level_start as int, parts, t as int);
            assert(parts[t as int] == node_bits(
                a,
                s,
                frontier@[t as int].0 as int,
                frontier@[t as int].1 as int,
            ));
        }
        (next, t_off, t_left, t_right, offset)
    }

    /// The symbol at position `index`, found by descending level by level.
    fn access_rec(&self, index: u32) -> (r: T)
        requires
            self.wf(),
            index < self.data_size,
        ensures
            r == self@[index as int],
    {
        let ghost a = self.alphabet@;
        let ghost s = self@;
        let ghost n = a.len() as int;
        proof {
            lemma_root_range(a, s);
            lemma_layout_fits(a, s);
            assert(s.contains(s[index as int]));
            assert(a.contains(s[index as int]));
        }
        let size = self.alphabet.len();
        if size == 1 {
            proof {
                lemma_single_range(a, s, 0);
            }
            return self.alphabet[0];
        }
        let mut frontier: Vec<(usize, usize, u64)> = Vec::new();
        frontier.push((0, size, self.data_size as u64));
        let mut t: usize = 0;
        let mut p: u64 = index as u64;
        let mut level_start: u64 = 0;
        let ghost mut d: nat = 0;
        proof {
            lemma_nodes_height(0, n, 0);
            assert(nodes_at(0, n, 0) =~= seq![(0int, n)]);
            assert(frontier@[0] == (0usize, size, self.data_size as u64));
            assert(frontier_matches(a, s, frontier@, nodes_at(0, n, 0)));
        }
        loop
            invariant
                self.wf(),
                a == self.alphabet@,
                s == self@,
                n == a.len(),
                size == n,
                n >= 2,
                index < s.len(),
                layout(a, s).len() < u64::MAX,
                frontier_matches(a, s, frontier@, nodes_at(0, n, d)),
                t < frontier@.len(),
                d < tree_height(0, n),
                level_start == layout_upto(a, s, d).len(),
                p < frontier@[t as int].2,
                range_seq(a, s, frontier@[t as int].0 as int, frontier@[t as int].1 as int)[p as int]
                    == s[index as int],
            decreases tree_height(0, n) - d,
        {
            let (next, off, tl, tr, level_len) = self.step_level(&frontier, level_start, Ghost(d), t);
            let (lo, hi, len) = frontier[t];
            proof {
                lemma_nodes_valid(0, n, d);
                assert(nodes_at(0, n, d)[t as int].0 == lo);
                assert(0 <= lo && hi <= n && hi - lo >= 2);
            }
            let m = lo + left_size_exec(hi - lo);
            let seg = level_start + off;
            let ghost b = node_bits(a, s, lo as int, hi as int);
            proof {
                lemma_access_step(a, s, lo as int, hi as int, p as int);
                lemma_node_prefix(bit_seq(self.bits), seg as int, b, p as int);
            }
            let ones = self.number_of(seg, seg + p, true);
            let bit = bitvec_get(&self.bits, seg + p);
            if !bit {
                let p2 = p - ones;
                if m - lo == 1 {
                    proof {
                        lemma_single_range(a, s, lo as int);
                    }
                    return self.alphabet[lo];
                }
                t = tl;
                p = p2;
            } else {
                if hi - m == 1 {
                    proof {
                        lemma_single_range(a, s, m as int);
                    }
                    return self.alphabet[m];
                }
                t = tr;
                p = ones;
            }
            level_start = level_start + level_len;
            frontier = next;
            proof {
                d = d + 1;
                lemma_nodes_height(0, n, d);
            }
        }
    }

    /// How often `element` occurs among the first `k` symbols.
    fn rank_rec(&self, element: T, k: u64) -> (r: u64)
        requires
            self.wf(),
            self.alphabet@.contains(element),
            k <= self.data_size,
        ensures
            r == count(self@.take(k as int), element),
    {
        let ghost a = self.alphabet@;
        let ghost s = self@;
        let ghost n = a.len() as int;
        proof {
            lemma_root_range(a, s);
            lemma_layout_fits(a, s);
            assert(a.subrange(0, n) =~= a);
        }
        let size = self.alphabet.len();
        if size == 1 {
            proof {
                lemma_single_range(a, s, 0);
                assert(element == a[0]);
                assert(s.take(k as int) =~= Seq::new(k as nat, |i: int| a[0]));
                lemma_count_repeat(k as nat, a[0]);
            }
            return k;
        }
        let mut frontier: Vec<(usize, usize, u64)> = Vec::new();
        frontier.push((0, size, self.data_size as u64));
        let mut t: usize = 0;
        let mut p: u64 = k;
        let mut level_start: u64 = 0;
        let ghost mut d: nat = 0;
        proof {
            lemma_nodes_height(0, n, 0);
            assert(nodes_at(0, n, 0) =~= seq![(0int, n)]);
            assert(frontier@[0] == (0usize, size, self.data_size as u64));
            assert(s.take(k as int).take(k as int) =~= s.take(k as int));
        }
        loop
            invariant
                self.wf(),
                a == self.alphabet@,
                s == self@,
                n == a.len(),
                size == n,
                n >= 2,
                k <= s.len(),
                layout(a, s).len() < u64::MAX,
                frontier_matches(a, s, frontier@, nodes_at(0, n, d)),
                t < frontier@.len(),
                d < tree_height(0, n),
                level_start == layout_upto(a, s, d).len(),
                p <= frontier@[t as int].2,
                a.subrange(frontier@[t as int].0 as int, frontier@[t as int].1 as int).contains(
                    element,
                ),
                count(
                    range_seq(a, s, frontier@[t as int].0 as int, frontier@[t as int].1 as int).take(
                        p as int,
                    ),
                    element,
                ) == count(s.take(k as int), element),
            decreases tree_height(0, n) - d,
        {
            let (next, off, tl, tr, level_len) = self.step_level(&frontier, level_start, Ghost(d), t);
            let (lo, hi, len) = frontier[t];
            proof {
                lemma_nodes_valid(0, n, d);
                assert(nodes_at(0, n, d)[t as int].0 == lo);
                assert(0 <= lo && hi <= n && hi - lo >= 2);
            }
            let m = lo + left_size_exec(hi - lo);
            let seg = level_start + off;
            let ghost b = node_bits(a, s, lo as int, hi as int);
            proof {
                lemma_rank_step(a, s, lo as int, hi as int, p as int, element);
                lemma_node_take(bit_seq(self.bits), seg as int, b, p as int);
                assert(a.subrange(lo as int, m as int) =~= self.alphabet@.subrange(lo as int, m as int));
            }
            let ones = self.number_of(seg, seg + p, true);
            let left = contains_symbol(vstd::slice::slice_subrange(self.alphabet.as_slice(), lo, m), element);
            if left {
                let c = p - ones;
                if m - lo == 1 {
                    proof {
                        lemma_single_range(a, s, lo as int);
                        assert(element == a[lo as int]);
                        let ql = range_seq(a, s, lo as int, m as int);
                        assert(ql.take(c as int) =~= Seq::new(c as nat, |i: int| a[lo as int]));
                        lemma_count_repeat(c as nat, a[lo as int]);
                    }
                    return c;
                }
                t = tl;
                p = c;
            } else {
                let c = ones;
                if hi - m == 1 {
                    proof {
                        lemma_single_range(a, s, m as int);
                        assert(element == a[m as int]);
                        let qr = range_seq(a, s, m as int, hi as int);
                        assert(qr.take(c as int) =~= Seq::new(c as nat, |i: int| a[m as int]));
                        lemma_count_repeat(c as nat, a[m as int]);
                    }
                    return c;
                }
                t = tr;
                p = c;
            }
            level_start = level_start + level_len;
            frontier = next;
            proof {
                d = d + 1;
                lemma_nodes_height(0, n, d);
            }
        }
    }

    /// The position of the `k`-th occurrence of `element`: descends to the
    /// element's leaf, then climbs back, finding at each node the bit that
    /// carries the occurrence.
    fn select_rec(&self, element: T, k: u64) -> (r: u64)
        requires
            self.wf(),
            self.alphabet@.contains(element),
            bit_seq(self.bits).len() > 0,
            1 <= k <= count(self@, element),
        ensures
            is_kth(self@, element, k as int, r as int),
    {
        let ghost a = self.alphabet@;
        let ghost s = self@;
        let ghost n = a.len() as int;
        proof {
            lemma_root_range(a, s);
            lemma_layout_fits(a, s);
            assert(a.subrange(0, n) =~= a);
            if n <= 1 {
                assert(tree_height(0, n) == 0);
            }
            lemma_take_all(s);
        }
        let size = self.alphabet.len();
        let mut frontier: Vec<(usize, usize, u64)> = Vec::new();
        frontier.push((0, size, self.data_size as u64));
        let mut t: usize = 0;
        let mut level_start: u64 = 0;
        let ghost mut d: nat = 0;
        let mut path: Vec<(u64, u64, bool)> = Vec::new();
        let ghost mut pn: Seq<(int, int)> = seq![(0int, n)];
        proof {
            lemma_nodes_height(0, n, 0);
            assert(nodes_at(0, n, 0) =~= seq![(0int, n)]);
            assert(frontier@[0] == (0usize, size, self.data_size as u64));
        }
        loop
            invariant_except_break
                frontier_matches(a, s, frontier@, nodes_at(0, n, d)),
                t < frontier@.len(),
                d < tree_height(0, n),
                level_start == layout_upto(a, s, d).len(),
                frontier@[t as int].0 == pn.last().0,
                frontier@[t as int].1 == pn.last().1,
                pn.last().1 - pn.last().0 >= 2,
            invariant
                self.wf(),
                a == self.alphabet@,
                s == self@,
                n == a.len(),
                size == n,
                n >= 2,
                layout(a, s).len() < u64::MAX,
                pn.len() == path@.len() + 1,
                pn[0] == (0int, n),
                0 <= pn.last().0 < pn.last().1 <= n,
                a.subrange(pn.last().0, pn.last().1).contains(element),
                k <= count(range_seq(a, s, pn.last().0, pn.last().1), element),
                forall|i: int|
                    0 <= i < path@.len() ==> step_ok(
                        a,
                        s,
                        bit_seq(self.bits),
                        element,
                        #[trigger] path@[i],
                        pn[i],
                        pn[i + 1],
                    ),
            ensures
                pn.last().1 - pn.last().0 == 1,
            decreases tree_height(0, n) - d,
        {
            let (next, off, tl, tr, level_len) = self.step_level(&frontier, level_start, Ghost(d), t);
            let (lo, hi, len) = frontier[t];
            proof {
                lemma_nodes_valid(0, n, d);
                assert(nodes_at(0, n, d)[t as int].0 == lo);
                assert(0 <= lo && hi <= n && hi - lo >= 2);
                lemma_split(lo as int, hi as int);
            }
            let m = lo + left_size_exec(hi - lo);
            let seg = level_start + off;
            proof {
                lemma_rank_step(a, s, lo as int, hi as int, len as int, element);
                lemma_decode(a, s, lo as int, hi as int);
                lemma_take_all(range_seq(a, s, lo as int, hi as int));
                lemma_take_all(node_bits(a, s, lo as int, hi as int));
                lemma_take_all(range_seq(a, s, lo as int, m as int));
                lemma_take_all(range_seq(a, s, m as int, hi as int));
                crate::bits::lemma_count_bools(node_bits(a, s, lo as int, hi as int));
                assert(a.subrange(lo as int, m as int) =~= self.alphabet@.subrange(lo as int, m as int));
            }
            let left = contains_symbol(vstd::slice::slice_subrange(self.alphabet.as_slice(), lo, m), element);
            let ghost old_path = path@;
            let ghost old_pn = pn;
            path.push((seg, len, !left));
            proof {
                let nxt = if left { (lo as int, m as int) } else { (m as int, hi as int) };
                pn = pn.push(nxt);
                assert(frontier@[t as int].2 == node_bits(a, s, lo as int, hi as int).len());
                assert forall|j: int| 0 <= j < path@.len() implies step_ok(
                    a,
                    s,
                    bit_seq(self.bits),
                    element,
                    #[trigger] path@[j],
                    pn[j],
                    pn[j + 1],
                ) by {
                    if j < old_path.len() {
                        assert(path@[j] == old_path[j]);
                        assert(pn[j] == old_pn[j]);
                        assert(pn[j + 1] == old_pn[j + 1]);
                    } else {
                        assert(j == old_path.len());
                        assert(pn[j] == old_pn.last());
                        assert(pn[j] == (lo as int, hi as int));
                        assert(path@[j] == (seg, len, !left));
                        assert(pn[j + 1] == nxt);
                        assert(seg + len <= layout(a, s).len());
                        assert(bit_seq(self.bits).subrange(seg as int, seg + len) == node_bits(
                            a,
                            s,
                            lo as int,
                            hi as int,
                        ));
                        assert(left == a.subrange(lo as int, m as int).contains(element));
                    }
                }
            }
            if left {
                if m - lo == 1 {
                    break;
                }
                t = tl;
            } else {
                if hi - m == 1 {
                    break;
                }
                t = tr;
            }
            level_start = level_start + level_len;
            frontier = next;
            proof {
                d = d + 1;
                lemma_nodes_height(0, n, d);
            }
        }
        // the occurrence's position in the leaf's part
        let mut q: u64 = k - 1;
        proof {
            let leaf = pn.last();
            lemma_single_range(a, s, leaf.0);
            let x = range_seq(a, s, leaf.0, leaf.1);
            assert(a.subrange(leaf.0, leaf.1)[0] == a[leaf.0]);
            assert(element == a[leaf.0]);
            lemma_count_repeat(x.len(), element);
            assert(x.take(q as int) =~= Seq::new(q as nat, |i: int| element));
            lemma_count_repeat(q as nat, element);
        }
        let mut i: usize = path.len();
        while i > 0
            invariant
                self.wf(),
                a == self.alphabet@,
                s == self@,
                n == a.len(),
                layout(a, s).len() < u64::MAX,
                pn.len() == path@.len() + 1,
                pn[0] == (0int, n),
                i <= path@.len(),
                is_kth(range_seq(a, s, pn[i as int].0, pn[i as int].1), element, k as int, q as int),
                forall|j: int|
                    0 <= j < path@.len() ==> step_ok(
                        a,
                        s,
                        bit_seq(self.bits),
                        element,
                        #[trigger] path@[j],
                        pn[j],
                        pn[j + 1],
                    ),
            decreases i,
        {
            i = i - 1;
            let (seg, len, right) = path[i];
            let ghost lo = pn[i as int].0;
            let ghost hi = pn[i as int].1;
            let ghost m = split_point(lo, hi);
            let ghost b = node_bits(a, s, lo, hi);
            let ghost ql = range_seq(a, s, lo, m);
            let ghost qr = range_seq(a, s, m, hi);
            proof {
                assert(path@[i as int] == (seg, len, right));
                lemma_decode(a, s, lo, hi);
                lemma_split(lo, hi);
                lemma_sides_disjoint(a, lo, m, hi, element);
                lemma_keep_satisfies(s, in_seq(a.subrange(lo, m)));
                lemma_keep_satisfies(s, in_seq(a.subrange(m, hi)));
                if right {
                    assert(pn[i + 1] == (m, hi));
                    assert(1 <= q + 1 <= count(b, true));
                } else {
                    assert(pn[i + 1] == (lo, m));
                    assert(1 <= q + 1 <= count(b, false));
                }
            }
            let pos = self.select_in(seg, len, right, q + 1);
            proof {
                if right {
                    assert forall|j: int| 0 <= j < ql.len() implies ql[j] != element by {
                        assert(in_seq(a.subrange(lo, m))(ql[j]));
                    }
                    lemma_interleave_kth_ones(b, ql, qr, element, k as int, q as int, pos as int);
                } else {
                    assert(a.subrange(lo, m).contains(element));
                    assert forall|j: int| 0 <= j < qr.len() implies qr[j] != element by {
                        assert(in_seq(a.subrange(m, hi))(qr[j]));
                    }
                    lemma_interleave_kth_zeros(b, ql, qr, element, k as int, q as int, pos as int);
                }
            }
            q = pos;
        }
        q
    }

    /// Appends the bits of the inner node over `lo..hi` whose part of the
    /// sequence is `items`, and returns its children's parts.
    fn split_items(
        alphabet: &Vec<T>,
        lo: usize,
        hi: usize,
        m: usize,
        items: &Vec<T>,
        bits: &mut BitVector,
        Ghost(s): Ghost<Seq<T>>,
    ) -> (res: (Vec<T>, Vec<T>))
        requires
            strictly_increasing(alphabet@),
            hi <= alphabet@.len(),
            hi - lo >= 2,
            m == split_point(lo as int, hi as int),
            items@ == range_seq(alphabet@, s, lo as int, hi as int),
            bit_seq(*old(bits)).len() + items@.len() < u64::MAX,
        ensures
            bit_seq(*final(bits)) == bit_seq(*old(bits)) + node_bits(
                alphabet@,
                s,
                lo as int,
                hi as int,
            ),
            res.0@ == range_seq(alphabet@, s, lo as int, m as int),
            res.1@ == range_seq(alphabet@, s, m as int, hi as int),
    {
        let ghost a = alphabet@;
        let ghost q = items@;
        proof {
            lemma_split(lo as int, hi as int);
            lemma_decode(a, s, lo as int, hi as int);
        }
        let left_alphabet = vstd::slice::slice_subrange(alphabet.as_slice(), lo, m);
        let ghost al = a.subrange(lo as int, m as int);
        let ghost before = bit_seq(*bits);
        proof {
            assert(left_alphabet@ =~= al);
        }
        let mut left_items: Vec<T> = Vec::new();
        let mut right_items: Vec<T> = Vec::new();
        let mut j: usize = 0;
        while j < items.len()
            invariant
                q == items@,
                j <= q.len(),
                left_alphabet@ == al,
                bit_seq(*bits) == before + q.take(j as int).map_values(not_in(al)),
                left_items@ == keep(q.take(j as int), negate(not_in(al))),
                right_items@ == keep(q.take(j as int), not_in(al)),
                before.len() + q.len() < u64::MAX,
            decreases q.len() - j,
        {
            let x = items[j];
            let bit = !contains_symbol(left_alphabet, x);
            bitvec_push(bits, bit);
            if bit {
                right_items.push(x);
            } else {
                left_items.push(x);
            }
            proof {
                assert(q.take(j + 1) =~= q.take(j as int).push(x));
                lemma_keep_push(q.take(j as int), x, not_in(al));
                lemma_keep_push(q.take(j as int), x, negate(not_in(al)));
                assert(bit_seq(*bits) =~= before + q.take(j + 1).map_values(not_in(al)));
            }
            j = j + 1;
        }
        proof {
            lemma_take_all(q);
        }
        (left_items, right_items)
    }

    /// What `new_fill(data)` returns: a well-formed tree that stores `data`.
    pub open spec fn built_from(self, data: Seq<T>) -> bool {
        &&& self.wf()
        &&& self@ == data
    }

    /// Builds the tree for `data`, level by level.
    pub fn new_fill(data: &[T]) -> (tree: PointerlessWaveletTree<T>)
        requires
            data@.len() <= u32::MAX,
        ensures
            tree.built_from(data@),
    {
        if data.len() == 0 {
            let tree = PointerlessWaveletTree {
                alphabet: Vec::new(),
                data_size: 0,
                bits: bitvec_new(),
                sequence: Ghost(data@),
            };
            proof {
                assert(layout(tree.alphabet@, data@) =~= Seq::<bool>::empty());
            }
            return tree;
        }
        let alphabet = sorted_alphabet(data);
        let ghost a = alphabet@;
        let ghost s = data@;
        let ghost n = a.len() as int;
        let mut bits = bitvec_new();
        let size = alphabet.len();
        proof {
            lemma_root_range(a, s);
            lemma_layout_fits(a, s);
        }
        if size >= 2 {
            let mut items: Vec<T> = Vec::new();
            let mut i: usize = 0;
            while i < data.len()
                invariant
                    i <= data.len(),
                    s == data@,
                    items@ == s.take(i as int),
                decreases data.len() - i,
            {
                items.push(data[i]);
                proof {
                    assert(items@ =~= s.take(i + 1));
                }
                i = i + 1;
            }
            proof {
                lemma_take_all(s);
            }
            let mut frontier: Vec<(usize, usize, Vec<T>)> = Vec::new();
            frontier.push((0, size, items));
            let ghost mut d: nat = 0;
            proof {
                assert(nodes_at(0, n, 0) =~= seq![(0int, n)]);
                assert(frontier_items_match(a, s, frontier@, nodes_at(0, n, 0)));
            }
            while frontier.len() > 0
                invariant
                    a == alphabet@,
                    s == data@,
                    n == a.len(),
                    size == n,
                    n >= 2,
                    strictly_increasing(a),
                    layout(a, s).len() < u64::MAX,
                    frontier_items_match(a, s, frontier@, nodes_at(0, n, d)),
                    bit_seq(bits) == layout_upto(a, s, d),
                    d <= tree_height(0, n),
                decreases tree_height(0, n) - d,
            {
                let ghost nodes = nodes_at(0, n, d);
                let ghost parts = level_parts(a, s, d);
                let ghost chl = nodes.map_values(|x: (int, int)| nodes_at(x.0, x.1, 1));
                proof {
                    lemma_nodes_height(0, n, d);
                    lemma_layout_level(a, s, d);
                    lemma_level_concat(a, s, 0, n, d);
                    lemma_nodes_valid(0, n, d);
                    lemma_nodes_next(0, n, d);
                    assert(parts.take(0) =~= Seq::<Seq<bool>>::empty());
                    assert(chl.take(0) =~= Seq::<Seq<(int, int)>>::empty());
                    assert(bit_seq(bits) =~= layout_upto(a, s, d) + concat_all(parts.take(0)));
                }
                let mut next: Vec<(usize, usize, Vec<T>)> = Vec::new();
                let mut u: usize = 0;
                while u < frontier.len()
                    invariant
                        a == alphabet@,
                        s == data@,
                        n == a.len(),
                        n >= 2,
                        strictly_increasing(a),
                        layout(a, s).len() < u64::MAX,
                        d < tree_height(0, n),
                        nodes == nodes_at(0, n, d),
                        parts == level_parts(a, s, d),
                        chl == nodes.map_values(|x: (int, int)| nodes_at(x.0, x.1, 1)),
                        level_bits(a, s, 0, n, d) == concat_all(parts),
                        layout_upto(a, s, d).len() + level_bits(a, s, 0, n, d).len() <= layout(
                            a,
                            s,
                        ).len(),
                        forall|v: int|
                            0 <= v < nodes.len() ==> 0 <= (#[trigger] nodes[v]).0 && nodes[v].1
                                <= n && nodes[v].1 - nodes[v].0 >= 2,
                        frontier_items_match(a, s, frontier@, nodes),
                        u <= frontier@.len(),
                        bit_seq(bits) == layout_upto(a, s, d) + concat_all(parts.take(u as int)),
                        frontier_items_match(a, s, next@, concat_all(chl.take(u as int))),
                    decreases frontier.len() - u,
                {
                    let lo = frontier[u].0;
                    let hi = frontier[u].1;
                    let m = lo + left_size_exec(hi - lo);
                    let ghost q = range_seq(a, s, lo as int, hi as int);
                    proof {
                        lemma_split(lo as int, hi as int);
                        lemma_concat_segment(parts, u as int);
                        lemma_concat_take_step(parts, u as int);
                        lemma_concat_take_step(chl, u as int);
                        assert(parts[u as int] == node_bits(a, s, lo as int, hi as int));
                        assert(frontier@[u as int].2@ == q);
                        lemma_decode(a, s, lo as int, hi as int);
                    }
                    let (left_items, right_items) = Self::split_items(
                        &alphabet,
                        lo,
                        hi,
                        m,
                        &frontier[u].2,
                        &mut bits,
                        Ghost(s),
                    );
                    let ghost before_next = next@;
                    if m - lo >= 2 {
                        next.push((lo, m, left_items));
                    }
                    if hi - m >= 2 {
                        next.push((m, hi, right_items));
                    }
                    proof {
                        let cu = chl[u as int];
                        assert(cu == nodes_at(lo as int, hi as int, 1));
                        assert(cu == nodes_at(lo as int, m as int, 0) + nodes_at(m as int, hi as int, 0));
                        let prev = concat_all(chl.take(u as int));
                        assert(concat_all(chl.take(u + 1)) == prev + cu);
                        assert forall|v: int| 0 <= v < next@.len() implies (#[trigger] next@[v]).0 == (
                        prev + cu)[v].0 && next@[v].1 == (prev + cu)[v].1 && next@[v].2@ == range_seq(
                            a,
                            s,
                            (prev + cu)[v].0,
                            (prev + cu)[v].1,
                        ) by {
                            if v < before_next.len() {
                                assert(next@[v] == before_next[v]);
                            }
                        }
                        assert(next@.len() == (prev + cu).len());
                        assert(bit_seq(bits) =~= layout_upto(a, s, d) + concat_all(parts.take(u + 1)));
                    }
                    u = u + 1;
                }
                proof {
                    assert(parts.take(parts.len() as int) =~= parts);
                    assert(chl.take(chl.len() as int) =~= chl);
                    assert(bit_seq(bits) == layout_upto(a, s, d + 1));
                }
                frontier = next;
                proof {
                    d = d + 1;
                }
            }
            proof {
                lemma_nodes_height(0, n, d);
                lemma_layout_stable(a, s, d);
            }
        } else {
            proof {
                assert(tree_height(0, n) == 0);
                assert(layout(a, s) =~= Seq::<bool>::empty());
            }
        }
        PointerlessWaveletTree {
            alphabet,
            data_size: data.len() as u32,
            bits,
            sequence: Ghost(data@),
        }
    }

    /// The stored sequence, read back position by position.
    pub fn deserialize(&self) -> (result: Vec<T>)
        requires
            self.wf(),
        ensures
            result@ == self@,
    {
        let mut result: Vec<T> = Vec::new();
        let mut i: u32 = 0;
        while i < self.data_size
            invariant
                self.wf(),
                i <= self.data_size,
                result@ == self@.take(i as int),
            decreases self.data_size - i,
        {
            let x = self.access(i).unwrap();
            result.push(x);
            proof {
                assert(result@ =~= self@.take(i + 1));
            }
            i = i + 1;
        }
        proof {
            lemma_take_all(self@);
        }
        result
    }
}

/// With at least two symbols, the layout is not empty: its first level has
/// one bit per element.
pub proof fn lemma_layout_nonempty<T: Symbol>(a: Seq<T>, s: Seq<T>)
    requires
        strictly_increasing(a),
        a.len() >= 2,
        forall|x: T| a.contains(x) <==> s.contains(x),
    ensures
        layout(a, s).len() >= s.len(),
        s.len() >= 1,
{
    let n = a.len() as int;
    assert(s.contains(a[0]));
    lemma_root_range(a, s);
    lemma_nodes_height(0, n, 0);
    lemma_layout_prefix(a, s, 1, tree_height(0, n));
    assert(layout_upto(a, s, 0) == Seq::<bool>::empty());
    assert(layout_upto(a, s, 1) =~= level_bits(a, s, 0, n, 0));
    assert(level_bits(a, s, 0, n, 0) == node_bits(a, s, 0, n));
}

impl<T: Symbol> WaveletTree<T> for PointerlessWaveletTree<T> {
    open spec fn well_formed(&self) -> bool {
        self.wf()
    }

    open spec fn access_requires(&self, index: u32) -> bool {
        true
    }

    open spec fn access_spec(&self, index: u32) -> Option<T> {
        if index < self@.len() {
            Some(self@[index as int])
        } else {
            None
        }
    }

    open spec fn rank_requires(&self, element: T, index: u32) -> bool {
        true
    }

    /// Occurrences of `element` at positions `0..=index`, a position past
    /// the end counting as the last one; zero for a symbol outside the alphabet.
    open spec fn rank_spec(&self, element: T, index: u32) -> int {
        if !self.alphabet@.contains(element) {
            0
        } else if index < self@.len() {
            count(self@.take(index + 1), element) as int
        } else {
            count(self@, element) as int
        }
    }

    /// The symbol must belong to the alphabet, the tree must hold at least
    /// two distinct symbols, and `index` must lie between 1 and the
    /// symbol's count.
    open spec fn select_requires(&self, element: T, index: u32) -> bool {
        &&& self.alphabet@.contains(element)
        &&& self.alphabet@.len() >= 2
        &&& 1 <= index <= count(self@, element)
    }

    open spec fn select_spec(&self, element: T, index: u32, pos: u32) -> bool {
        is_kth(self@, element, index as int, pos as int)
    }

    fn access(&self, index: u32) -> (r: Option<T>) {
        if self.data_size == 0 || index >= self.data_size {
            return Option::None;
        }
        Option::Some(self.access_rec(index))
    }

    fn rank(&self, element: T, index: u32) -> (r: u32) {
        if !contains_symbol(self.alphabet.as_slice(), element) {
            return 0;
        }
        let k: u64 = if index >= self.data_size {
            self.data_size as u64
        } else {
            index as u64 + 1
        };
        proof {
            lemma_take_all(self@);
            lemma_count_le_len(self@.take(k as int), element);
        }
        self.rank_rec(element, k) as u32
    }

    fn select(&self, element: T, index: u32) -> (r: u32) {
        proof {
            lemma_layout_nonempty(self.alphabet@, self@);
            lemma_count_le_len(self@, element);
        }
        self.select_rec(element, index as u64) as u32
    }
}

/// A tree built from a sequence stores exactly that sequence, so
/// `deserialize` gives it back.
pub proof fn law_stores_sequence<T: Symbol>(tree: PointerlessWaveletTree<T>, data: Seq<T>)
    requires
        tree.built_from(data),
    ensures
        tree@ == data,
        tree.data_size == data.len(),
{
}

/// A tree built from a sequence reads it back: `access(i)` returns the
/// `i`-th symbol, and nothing past the end.
pub proof fn law_access_reads_back<T: Symbol>(tree: PointerlessWaveletTree<T>, data: Seq<T>, i: u32)
    requires
        tree.built_from(data),
    ensures
        tree.access_spec(i) == (if i < data.len() {
            Some(data[i as int])
        } else {
            None
        }),
{
}

/// In a tree built from a sequence, `rank(e, i)` counts the occurrences of
/// `e` among the first `i + 1` symbols (all of them when `i` is past the
/// end), whether or not `e` occurs at all.
pub proof fn law_rank_counts<T: Symbol>(tree: PointerlessWaveletTree<T>, data: Seq<T>, e: T, i: u32)
    requires
        tree.built_from(data),
    ensures
        tree.rank_spec(e, i) == (if i < data.len() {
            count(data.take(i + 1), e)
        } else {
            count(data, e)
        }),
{
    if !data.contains(e) {
        lemma_count_contains(data, e);
        if i < data.len() {
            lemma_count_take_le(data, e, i + 1);
        }
    }
}

/// In a tree built from a sequence with at least two distinct symbols,
/// `select(e, k)` is defined for every `k` from 1 to the count of `e`, and
/// answers the position of the `k`-th occurrence.
pub proof fn law_select_finds<T: Symbol>(
    tree: PointerlessWaveletTree<T>,
    data: Seq<T>,
    e: T,
    k: u32,
    pos: u32,
)
    requires
        tree.built_from(data),
        tree.alphabet@.len() >= 2,
        1 <= k <= count(data, e),
    ensures
        tree.select_requires(e, k),
        tree.select_spec(e, k, pos) <==> is_kth(data, e, k as int, pos as int),
{
    lemma_count_contains(data, e);
}

/// `rank` undoes `select`: at the position of the `k`-th occurrence of `e`
/// there is an `e`, and `e` has occurred `k` times up to it.
pub proof fn law_rank_after_select<T: Symbol>(
    tree: PointerlessWaveletTree<T>,
    e: T,
    k: u32,
    pos: u32,
)
    requires
        tree.wf(),
        tree.select_requires(e, k),
        tree.select_spec(e, k, pos),
    ensures
        tree.access_spec(pos) == Some(e),
        tree.rank_spec(e, pos) == k,
{
    lemma_count_step(tree@, e, pos as int);
}

/// The answer of `select` is unique.
pub proof fn law_select_unique<T: Symbol>(
    tree: PointerlessWaveletTree<T>,
    e: T,
    k: u32,
    p: u32,
    q: u32,
)
    requires
        tree.select_spec(e, k, p),
        tree.select_spec(e, k, q),
    ensures
        p == q,
{
    lemma_kth_unique(tree@, e, k as int, p as int, q as int);
}

/// The pointer-based and the level-packed tree built from the same
/// sequence, with at least two distinct symbols, store the same sequence
/// and answer `access`, `rank` (at positions within the sequence) and
/// `select` alike.
pub proof fn law_layouts_agree<T: Symbol>(
    pointer: PointerWaveletTree<T>,
    packed: PointerlessWaveletTree<T>,
    data: Seq<T>,
)
    requires
        pointer.built_from(data),
        packed.built_from(data),
        pointer.alphabet@.len() >= 2,
    ensures
        pointer@ == packed@,
        forall|i: u32| #[trigger] pointer.access_spec(i) == packed.access_spec(i),
        forall|e: T, i: u32|
            i < data.len() ==> #[trigger] pointer.rank_spec(e, i) == packed.rank_spec(e, i),
        forall|e: T, k: u32| #[trigger]
            pointer.select_requires(e, k) ==> packed.select_requires(e, k),
        forall|e: T, k: u32, p: u32| #[trigger]
            pointer.select_spec(e, k, p) == packed.select_spec(e, k, p),
{
    assert forall|e: T| pointer.alphabet@.contains(e) <==> packed.alphabet@.contains(e) by {
        assert(packed@.contains(e) == data.contains(e));
    }
    assert(packed.alphabet@.len() >= 2) by {
        assert(data.contains(pointer.alphabet@[0]));
        assert(data.contains(pointer.alphabet@[1]));
        assert(packed.alphabet@.contains(pointer.alphabet@[0]));
        assert(packed.alphabet@.contains(pointer.alphabet@[1]));
        assert(pointer.alphabet@[0] != pointer.alphabet@[1]);
        if packed.alphabet@.len() < 2 {
            let x = pointer.alphabet@[0];
            let y = pointer.alphabet@[1];
            let i = choose|i: int| 0 <= i < packed.alphabet@.len() && packed.alphabet@[i] == x;
            let j = choose|j: int| 0 <= j < packed.alphabet@.len() && packed.alphabet@[j] == y;
        }
    }
}

} // verus!
