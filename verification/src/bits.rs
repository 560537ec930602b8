use bio::data_structures::rank_select::RankSelect;
use bv::BitVec;
use vstd::prelude::*;

verus! {

/// A growable sequence of bits, stored in a `bv::BitVec<u8>`.
#[verifier::external_body]
pub struct BitVector {
    bits: BitVec<u8>,
}

#[verifier::external_type_specification]
#[verifier::external_body]
pub struct ExRankSelect(RankSelect);

/// The bits held by a bit vector, in order.
pub uninterp spec fn bit_seq(b: BitVector) -> Seq<bool>;

/// The bits of the bit vector that a rank/select structure indexes.
pub uninterp spec fn indexed_bits(r: RankSelect) -> Seq<bool>;

/// Number of occurrences of `x` in `s`.
pub open spec fn count<A>(s: Seq<A>, x: A) -> nat
    decreases s.len(),
{
    if s.len() == 0 {
        0
    } else {
        count(s.drop_last(), x) + (if s.last() == x {
            1nat
        } else {
            0nat
        })
    }
}

/// `p` is the position of the `k`-th (counting from 1) occurrence of `x` in `s`.
pub open spec fn is_kth<A>(s: Seq<A>, x: A, k: int, p: int) -> bool {
    &&& 0 <= p < s.len()
    &&& s[p] == x
    &&& count(s.take(p), x) == k - 1
}

/// Counting one more element of a sequence.
pub proof fn lemma_count_step<A>(s: Seq<A>, x: A, i: int)
    requires
        0 <= i < s.len(),
    ensures
        count(s.take(i + 1), x) == count(s.take(i), x) + (if s[i] == x {
            1int
        } else {
            0int
        }),
{
    assert(s.take(i + 1).drop_last() =~= s.take(i));
}

/// The whole sequence as its own prefix.
pub proof fn lemma_take_all<A>(s: Seq<A>)
    ensures
        s.take(s.len() as int) == s,
{
    assert(s.take(s.len() as int) =~= s);
}

/// A count never exceeds the length.
pub proof fn lemma_count_le_len<A>(s: Seq<A>, x: A)
    ensures
        count(s, x) <= s.len(),
    decreases s.len(),
{
    if s.len() > 0 {
        lemma_count_le_len(s.drop_last(), x);
    }
}

/// Counts of prefixes grow with the prefix.
pub proof fn lemma_count_prefix_mono<A>(s: Seq<A>, x: A, i: int, j: int)
    requires
        0 <= i <= j <= s.len(),
    ensures
        count(s.take(i), x) <= count(s.take(j), x),
    decreases j - i,
{
    if i < j {
        lemma_count_prefix_mono(s, x, i, j - 1);
        lemma_count_step(s, x, j - 1);
    }
}

/// Every bit is either set or clear.
pub proof fn lemma_count_bools(b: Seq<bool>)
    ensures
        count(b, true) + count(b, false) == b.len(),
    decreases b.len(),
{
    if b.len() > 0 {
        lemma_count_bools(b.drop_last());
    }
}

/// A sequence of one repeated element.
pub proof fn lemma_count_repeat<A>(n: nat, x: A)
    ensures
        count(Seq::new(n, |i: int| x), x) == n,
    decreases n,
{
    if n > 0 {
        lemma_count_repeat((n - 1) as nat, x);
        assert(Seq::new(n, |i: int| x).drop_last() =~= Seq::new((n - 1) as nat, |i: int| x));
    }
}

/// A count on a concatenation.
pub proof fn lemma_count_add<A>(s: Seq<A>, t: Seq<A>, x: A)
    ensures
        count(s + t, x) == count(s, x) + count(t, x),
    decreases t.len(),
{
    if t.len() == 0 {
        assert(s + t =~= s);
    } else {
        lemma_count_add(s, t.drop_last(), x);
        assert((s + t).drop_last() =~= s + t.drop_last());
    }
}

/// An element that occurs is contained.
pub proof fn lemma_count_contains<A>(s: Seq<A>, x: A)
    ensures
        count(s, x) > 0 <==> s.contains(x),
    decreases s.len(),
{
    if s.len() > 0 {
        lemma_count_contains(s.drop_last(), x);
        if s.contains(x) && s.last() != x {
            let i = choose|i: int| 0 <= i < s.len() && s[i] == x;
            assert(s.drop_last()[i] == x);
        }
        if s.drop_last().contains(x) {
            let i = choose|i: int| 0 <= i < s.drop_last().len() && s.drop_last()[i] == x;
            assert(s[i] == x);
        }
        if s.last() == x {
            assert(s[s.len() - 1] == x);
        }
    }
}

/// A prefix of a sequence holds no more occurrences than the sequence.
pub proof fn lemma_count_take_le<A>(s: Seq<A>, x: A, i: int)
    requires
        0 <= i <= s.len(),
    ensures
        count(s.take(i), x) <= count(s, x),
{
    lemma_count_prefix_mono(s, x, i, s.len() as int);
    lemma_take_all(s);
}

/// The position of the `k`-th occurrence is unique.
pub proof fn lemma_kth_unique<A>(s: Seq<A>, x: A, k: int, p: int, q: int)
    requires
        is_kth(s, x, k, p),
        is_kth(s, x, k, q),
    ensures
        p == q,
{
    if p < q {
        lemma_count_step(s, x, p);
        lemma_count_prefix_mono(s, x, p + 1, q);
    } else if q < p {
        lemma_count_step(s, x, q);
        lemma_count_prefix_mono(s, x, q + 1, p);
    }
}

/// The `k`-th occurrence exists when there are at least `k` occurrences.
pub proof fn lemma_kth_exists<A>(s: Seq<A>, x: A, k: int)
    requires
        1 <= k <= count(s, x),
    ensures
        exists|p: int| is_kth(s, x, k, p),
    decreases s.len(),
{
    let t = s.drop_last();
    assert(s.take(s.len() - 1) =~= t);
    if k <= count(t, x) {
        lemma_kth_exists(t, x, k);
        let p = choose|p: int| is_kth(t, x, k, p);
        assert(s.take(p) =~= t.take(p));
        assert(is_kth(s, x, k, p));
    } else {
        let p = s.len() - 1;
        assert(is_kth(s, x, k, p));
    }
}

/// `BitVec::new` (bv): an empty bit vector.
#[verifier::external_body]
pub(crate) fn bitvec_new() -> (r: BitVector)
    ensures
        bit_seq(r) == Seq::<bool>::empty(),
{
    BitVector { bits: BitVec::new() }
}

/// `BitVec::len` (bv): the number of bits.
#[verifier::external_body]
pub(crate) fn bitvec_len(b: &BitVector) -> (r: u64)
    ensures
        r == bit_seq(*b).len(),
{
    b.bits.len()
}

/// `BitVec::get` (bv): the bit at `i`; it panics out of bounds.
#[verifier::external_body]
pub(crate) fn bitvec_get(b: &BitVector, i: u64) -> (r: bool)
    requires
        i < bit_seq(*b).len(),
    ensures
        r == bit_seq(*b)[i as int],
{
    b.bits.get(i)
}

/// `BitVec::push` (bv): appends one bit; the length is a `u64`.
#[verifier::external_body]
pub(crate) fn bitvec_push(b: &mut BitVector, value: bool)
    requires
        bit_seq(*old(b)).len() < u64::MAX,
    ensures
        bit_seq(*final(b)) == bit_seq(*old(b)).push(value),
{
    b.bits.push(value)
}

/// `BitVec::clone` (bv, derived): a bit vector with the same bits.
#[verifier::external_body]
pub(crate) fn bitvec_clone(b: &BitVector) -> (r: BitVector)
    ensures
        bit_seq(r) == bit_seq(*b),
{
    BitVector { bits: b.bits.clone() }
}

/// `RankSelect::new` (bio): indexes `bits` with superblocks of `k * 32`
/// bits; the bits are kept as they are. The number of blocks is computed
/// through an `f64`, which is exact for the lengths admitted here.
#[verifier::external_body]
pub(crate) fn rank_select_new(bits: BitVector, k: usize) -> (r: RankSelect)
    requires
        1 <= k <= 1024,
        bit_seq(bits).len() <= u32::MAX,
    ensures
        indexed_bits(r) == bit_seq(bits),
{
    RankSelect::new(bits.bits, k)
}

/// `RankSelect::rank_1` (bio): the number of set bits at positions `0..=i`,
/// or `None` when `i` is out of bounds.
#[verifier::external_body]
pub(crate) fn rank_select_rank_1(r: &RankSelect, i: u64) -> (res: Option<u64>)
    ensures
        i < indexed_bits(*r).len() ==> res == Some(
            count(indexed_bits(*r).take(i + 1), true) as u64,
        ),
        i >= indexed_bits(*r).len() ==> res is None,
{
    r.rank_1(i)
}

/// `RankSelect::rank_0` (bio): the number of clear bits at positions
/// `0..=i`, or `None` when `i` is out of bounds.
#[verifier::external_body]
pub(crate) fn rank_select_rank_0(r: &RankSelect, i: u64) -> (res: Option<u64>)
    ensures
        i < indexed_bits(*r).len() ==> res == Some(
            count(indexed_bits(*r).take(i + 1), false) as u64,
        ),
        i >= indexed_bits(*r).len() ==> res is None,
{
    r.rank_0(i)
}

/// `RankSelect::select_1` (bio): the position of the `j`-th set bit
/// (counting from 1), or `None` when there is none; it panics on an empty
/// bit vector unless `j == 0`.
#[verifier::external_body]
pub(crate) fn rank_select_select_1(r: &RankSelect, j: u64) -> (res: Option<u64>)
    requires
        j >= 1 ==> indexed_bits(*r).len() > 0,
    ensures
        match res {
            Some(p) => 1 <= j <= count(indexed_bits(*r), true) && is_kth(
                indexed_bits(*r),
                true,
                j as int,
                p as int,
            ),
            None => !(1 <= j <= count(indexed_bits(*r), true)),
        },
{
    r.select_1(j)
}

/// `RankSelect::select_0` (bio): the position of the `j`-th clear bit
/// (counting from 1), or `None` when there is none; it panics on an empty
/// bit vector unless `j == 0`.
#[verifier::external_body]
pub(crate) fn rank_select_select_0(r: &RankSelect, j: u64) -> (res: Option<u64>)
    requires
        j >= 1 ==> indexed_bits(*r).len() > 0,
    ensures
        match res {
            Some(p) => 1 <= j <= count(indexed_bits(*r), false) && is_kth(
                indexed_bits(*r),
                false,
                j as int,
                p as int,
            ),
            None => !(1 <= j <= count(indexed_bits(*r), false)),
        },
{
    r.select_0(j)
}

impl BitVector {
    /// The number of bits.
    pub fn len(&self) -> (r: u64)
        ensures
            r == bit_seq(*self).len(),
    {
        bitvec_len(self)
    }

    /// The bit at position `i`.
    pub fn get(&self, i: u64) -> (r: bool)
        requires
            i < bit_seq(*self).len(),
        ensures
            r == bit_seq(*self)[i as int],
    {
        bitvec_get(self, i)
    }

    /// All bits, in order.
    pub fn to_bools(&self) -> (r: Vec<bool>)
        ensures
            r@ == bit_seq(*self),
    {
        let n = bitvec_len(self);
        let mut r: Vec<bool> = Vec::new();
        let mut i: u64 = 0;
        while i < n
            invariant
                n == bit_seq(*self).len(),
                i <= n,
                r@ == bit_seq(*self).take(i as int),
            decreases n - i,
        {
            r.push(bitvec_get(self, i));
            proof {
                assert(r@ =~= bit_seq(*self).take(i + 1));
            }
            i = i + 1;
        }
        proof {
            lemma_take_all(bit_seq(*self));
        }
        r
    }
}

} // verus!
