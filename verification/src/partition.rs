use crate::bits::{count, is_kth, lemma_count_step, lemma_count_prefix_mono, lemma_take_all};
use vstd::prelude::*;

verus! {

/// The elements of `s` that satisfy `p`, in their order.
pub open spec fn keep<A>(s: Seq<A>, p: spec_fn(A) -> bool) -> Seq<A>
    decreases s.len(),
{
    if s.len() == 0 {
        Seq::empty()
    } else {
        let r = keep(s.drop_last(), p);
        if p(s.last()) {
            r.push(s.last())
        } else {
            r
        }
    }
}

/// The negation of a predicate.
pub open spec fn negate<A>(p: spec_fn(A) -> bool) -> spec_fn(A) -> bool {
    |x: A| !p(x)
}

/// The conjunction of two predicates.
pub open spec fn both<A>(p: spec_fn(A) -> bool, q: spec_fn(A) -> bool) -> spec_fn(A) -> bool {
    |x: A| p(x) && q(x)
}

/// The sequence that a bit sequence `b` splits into `zeros` (clear bits)
/// and `ones` (set bits): position `i` takes the next unused element of
/// the side that `b[i]` names.
pub open spec fn interleave<A>(b: Seq<bool>, zeros: Seq<A>, ones: Seq<A>) -> Seq<A> {
    Seq::new(
        b.len(),
        |i: int|
            if b[i] {
                ones[count(b.take(i), true) as int]
            } else {
                zeros[count(b.take(i), false) as int]
            },
    )
}

/// Keeping from a sequence extended by one element.
pub proof fn lemma_keep_push<A>(s: Seq<A>, x: A, p: spec_fn(A) -> bool)
    ensures
        keep(s.push(x), p) == (if p(x) {
            keep(s, p).push(x)
        } else {
            keep(s, p)
        }),
{
    assert(s.push(x).drop_last() =~= s);
}

/// Every kept element satisfies the predicate, and no more elements are kept
/// than there are.
pub proof fn lemma_keep_satisfies<A>(s: Seq<A>, p: spec_fn(A) -> bool)
    ensures
        keep(s, p).len() <= s.len(),
        forall|i: int| 0 <= i < keep(s, p).len() ==> p(#[trigger] keep(s, p)[i]),
    decreases s.len(),
{
    if s.len() > 0 {
        lemma_keep_satisfies(s.drop_last(), p);
    }
}

/// Keeping by two predicates that agree everywhere.
pub proof fn lemma_keep_ext<A>(s: Seq<A>, p: spec_fn(A) -> bool, q: spec_fn(A) -> bool)
    requires
        forall|x: A| #[trigger] p(x) == q(x),
    ensures
        keep(s, p) == keep(s, q),
    decreases s.len(),
{
    if s.len() > 0 {
        lemma_keep_ext(s.drop_last(), p, q);
    }
}

/// Keeping twice is keeping by the conjunction.
pub proof fn lemma_keep_keep<A>(s: Seq<A>, p: spec_fn(A) -> bool, q: spec_fn(A) -> bool)
    ensures
        keep(keep(s, p), q) == keep(s, both(p, q)),
    decreases s.len(),
{
    if s.len() > 0 {
        lemma_keep_keep(s.drop_last(), p, q);
        let r = keep(s.drop_last(), p);
        if p(s.last()) {
            lemma_keep_push(r, s.last(), q);
        }
    }
}

/// Keeping the occurrences of one element.
pub proof fn lemma_keep_const<A>(s: Seq<A>, a: A)
    ensures
        keep(s, |x: A| x == a) == Seq::new(keep(s, |x: A| x == a).len(), |i: int| a),
{
    lemma_keep_satisfies(s, |x: A| x == a);
    assert(keep(s, |x: A| x == a) =~= Seq::new(keep(s, |x: A| x == a).len(), |i: int| a));
}

/// A sequence is the interleaving of the elements that fail a predicate and
/// the elements that satisfy it, along the predicate's bit sequence.
pub proof fn lemma_partition<A>(f: Seq<A>, p: spec_fn(A) -> bool)
    ensures
        count(f.map_values(p), true) == keep(f, p).len(),
        count(f.map_values(p), false) == keep(f, negate(p)).len(),
        f == interleave(f.map_values(p), keep(f, negate(p)), keep(f, p)),
    decreases f.len(),
{
    let np = negate(p);
    let b = f.map_values(p);
    if f.len() == 0 {
        assert(f =~= interleave(b, keep(f, np), keep(f, p)));
    } else {
        let g = f.drop_last();
        let x = f.last();
        lemma_partition(g, p);
        let bg = g.map_values(p);
        assert(b.drop_last() =~= bg);
        assert(f =~= g.push(x));
        lemma_keep_push(g, x, p);
        lemma_keep_push(g, x, np);
        let zs = keep(f, np);
        let os = keep(f, p);
        assert forall|i: int| 0 <= i < f.len() implies #[trigger] f[i] == interleave(b, zs, os)[i] by {
            assert(b.take(i) =~= bg.take(i)) by {
                if i < g.len() {
                    assert(b.take(i) =~= bg.take(i));
                } else {
                    assert(b.take(i) =~= bg);
                    assert(bg.take(i) =~= bg);
                }
            }
            if i < g.len() {
                assert(g == interleave(bg, keep(g, np), keep(g, p)));
                assert(g[i] == interleave(bg, keep(g, np), keep(g, p))[i]);
                if bg[i] {
                    lemma_count_step(bg, true, i);
                    lemma_count_prefix_mono(bg, true, i + 1, bg.len() as int);
                    lemma_take_all(bg);
                } else {
                    lemma_count_step(bg, false, i);
                    lemma_count_prefix_mono(bg, false, i + 1, bg.len() as int);
                    lemma_take_all(bg);
                }
            } else {
                lemma_take_all(bg);
            }
        }
        assert(f =~= interleave(b, zs, os));
    }
}

/// Counting an element that only the clear side holds, along a prefix of
/// an interleaving.
pub proof fn lemma_interleave_count_zeros<A>(
    b: Seq<bool>,
    zeros: Seq<A>,
    ones: Seq<A>,
    e: A,
    k: int,
)
    requires
        zeros.len() == count(b, false),
        ones.len() == count(b, true),
        forall|j: int| 0 <= j < ones.len() ==> ones[j] != e,
        0 <= k <= b.len(),
    ensures
        count(interleave(b, zeros, ones).take(k), e) == count(
            zeros.take(count(b.take(k), false) as int),
            e,
        ),
    decreases k,
{
    let s = interleave(b, zeros, ones);
    if k > 0 {
        lemma_interleave_count_zeros(b, zeros, ones, e, k - 1);
        lemma_count_step(s, e, k - 1);
        lemma_take_all(b);
        if b[k - 1] {
            lemma_count_step(b, true, k - 1);
            lemma_count_step(b, false, k - 1);
            lemma_count_prefix_mono(b, true, k, b.len() as int);
        } else {
            let c = count(b.take(k - 1), false) as int;
            lemma_count_step(b, false, k - 1);
            lemma_count_prefix_mono(b, false, k, b.len() as int);
            lemma_count_step(zeros, e, c);
        }
    }
}

/// Counting an element that only the set side holds, along a prefix of
/// an interleaving.
pub proof fn lemma_interleave_count_ones<A>(
    b: Seq<bool>,
    zeros: Seq<A>,
    ones: Seq<A>,
    e: A,
    k: int,
)
    requires
        zeros.len() == count(b, false),
        ones.len() == count(b, true),
        forall|j: int| 0 <= j < zeros.len() ==> zeros[j] != e,
        0 <= k <= b.len(),
    ensures
        count(interleave(b, zeros, ones).take(k), e) == count(
            ones.take(count(b.take(k), true) as int),
            e,
        ),
    decreases k,
{
    let s = interleave(b, zeros, ones);
    if k > 0 {
        lemma_interleave_count_ones(b, zeros, ones, e, k - 1);
        lemma_count_step(s, e, k - 1);
        lemma_take_all(b);
        if b[k - 1] {
            let c = count(b.take(k - 1), true) as int;
            lemma_count_step(b, true, k - 1);
            lemma_count_prefix_mono(b, true, k, b.len() as int);
            lemma_count_step(ones, e, c);
        } else {
            lemma_count_step(b, false, k - 1);
            lemma_count_step(b, true, k - 1);
            lemma_count_prefix_mono(b, false, k, b.len() as int);
        }
    }
}

/// The `j`-th occurrence of an element held only by the clear side sits
/// at the clear bit that carries it.
pub proof fn lemma_interleave_kth_zeros<A>(
    b: Seq<bool>,
    zeros: Seq<A>,
    ones: Seq<A>,
    e: A,
    j: int,
    q: int,
    p: int,
)
    requires
        zeros.len() == count(b, false),
        ones.len() == count(b, true),
        forall|i: int| 0 <= i < ones.len() ==> ones[i] != e,
        is_kth(zeros, e, j, q),
        is_kth(b, false, q + 1, p),
    ensures
        is_kth(interleave(b, zeros, ones), e, j, p),
{
    lemma_interleave_count_zeros(b, zeros, ones, e, p);
}

/// The `j`-th occurrence of an element held only by the set side sits at
/// the set bit that carries it.
pub proof fn lemma_interleave_kth_ones<A>(
    b: Seq<bool>,
    zeros: Seq<A>,
    ones: Seq<A>,
    e: A,
    j: int,
    q: int,
    p: int,
)
    requires
        zeros.len() == count(b, false),
        ones.len() == count(b, true),
        forall|i: int| 0 <= i < zeros.len() ==> zeros[i] != e,
        is_kth(ones, e, j, q),
        is_kth(b, true, q + 1, p),
    ensures
        is_kth(interleave(b, zeros, ones), e, j, p),
{
    lemma_interleave_count_ones(b, zeros, ones, e, p);
}

/// Membership in `a`, as a predicate.
pub open spec fn in_seq<A>(a: Seq<A>) -> spec_fn(A) -> bool {
    |x: A| a.contains(x)
}

/// Keeping what all elements satisfy keeps everything.
pub proof fn lemma_keep_all<A>(s: Seq<A>, p: spec_fn(A) -> bool)
    requires
        forall|i: int| 0 <= i < s.len() ==> p(#[trigger] s[i]),
    ensures
        keep(s, p) == s,
    decreases s.len(),
{
    if s.len() > 0 {
        lemma_keep_all(s.drop_last(), p);
        assert(s.drop_last().push(s.last()) =~= s);
    }
}

/// When exactly the first `k` elements satisfy the predicate, keeping is
/// taking the first `k`.
pub proof fn lemma_keep_prefix<A>(s: Seq<A>, p: spec_fn(A) -> bool, k: int)
    requires
        0 <= k <= s.len(),
        forall|i: int| 0 <= i < k ==> p(#[trigger] s[i]),
        forall|i: int| k <= i < s.len() ==> !p(#[trigger] s[i]),
    ensures
        keep(s, p) == s.take(k),
    decreases s.len(),
{
    if s.len() > 0 {
        if k == s.len() {
            lemma_keep_all(s, p);
            assert(s.take(k) =~= s);
        } else {
            lemma_keep_prefix(s.drop_last(), p, k);
            assert(s.drop_last().take(k) =~= s.take(k));
        }
    } else {
        assert(s.take(k) =~= s);
    }
}

} // verus!
