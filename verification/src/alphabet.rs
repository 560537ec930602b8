use crate::symbol::Symbol;
use vstd::prelude::*;

verus! {

/// Values strictly increase along the sequence.
pub open spec fn strictly_increasing<T: Symbol>(s: Seq<T>) -> bool {
    forall|i: int, j: int| 0 <= i < j < s.len() ==> s[i].value() < s[j].value()
}

/// The position of the first element whose value is at least `v`, in an
/// increasing sequence.
fn lower_bound<T: Symbol>(alphabet: &Vec<T>, v: u64) -> (pos: usize)
    requires
        strictly_increasing(alphabet@),
    ensures
        pos <= alphabet.len(),
        forall|j: int| 0 <= j < pos ==> alphabet@[j].value() < v,
        forall|j: int| pos <= j < alphabet.len() ==> alphabet@[j].value() >= v,
{
    let mut pos: usize = 0;
    while pos < alphabet.len()
        invariant
            pos <= alphabet.len(),
            strictly_increasing(alphabet@),
            forall|j: int| 0 <= j < pos ==> alphabet@[j].value() < v,
        decreases alphabet.len() - pos,
    {
        if alphabet[pos].to_u64() >= v {
            return pos;
        }
        pos = pos + 1;
    }
    pos
}

/// The distinct symbols of `data`, in increasing order of value.
pub fn sorted_alphabet<T: Symbol>(data: &[T]) -> (alphabet: Vec<T>)
    ensures
        strictly_increasing(alphabet@),
        forall|x: T| alphabet@.contains(x) <==> data@.contains(x),
{
    let mut alphabet: Vec<T> = Vec::new();
    let mut i: usize = 0;
    while i < data.len()
        invariant
            0 <= i <= data.len(),
            strictly_increasing(alphabet@),
            forall|x: T| alphabet@.contains(x) <==> data@.take(i as int).contains(x),
        decreases data.len() - i,
    {
        let elem = data[i];
        let v = elem.to_u64();
        let pos = lower_bound(&alphabet, v);
        let ghost old_alpha = alphabet@;
        let ghost pre = data@.take(i as int);
        let ghost pre1 = data@.take(i + 1);
        assert(pre1 =~= pre.push(elem));
        if pos < alphabet.len() && alphabet[pos].to_u64() == v {
            proof {
                T::value_injective(alphabet@[pos as int], elem);
                assert forall|x: T| alphabet@.contains(x) <==> pre1.contains(x) by {
                    if pre1.contains(x) {
                        let k = choose|k: int| 0 <= k < i + 1 && pre1[k] == x;
                        if k < i {
                            assert(pre[k] == x);
                        }
                    }
                    if alphabet@.contains(x) {
                        assert(pre.contains(x));
                        let k = choose|k: int| 0 <= k < i && pre[k] == x;
                        assert(pre1[k] == x);
                    }
                }
            }
        } else {
            alphabet.insert(pos, elem);
            proof {
                old_alpha.insert_ensures(pos as int, elem);
                assert forall|a: int, b: int| 0 <= a < b < alphabet@.len() implies
                    alphabet@[a].value() < alphabet@[b].value() by {
                    if b < pos {
                    } else if b == pos {
                    } else if a < pos {
                        assert(alphabet@[b] == old_alpha[b - 1]);
                    } else if a == pos {
                        assert(alphabet@[b] == old_alpha[b - 1]);
                    } else {
                        assert(alphabet@[a] == old_alpha[a - 1]);
                        assert(alphabet@[b] == old_alpha[b - 1]);
                    }
                }
                assert forall|x: T| alphabet@.contains(x) <==> pre1.contains(x) by {
                    if pre1.contains(x) {
                        let k = choose|k: int| 0 <= k < i + 1 && pre1[k] == x;
                        if k < i {
                            assert(pre[k] == x);
                            assert(pre.contains(x));
                            assert(old_alpha.contains(x));
                            let m = choose|m: int| 0 <= m < old_alpha.len() && old_alpha[m] == x;
                            if m < pos {
                                assert(alphabet@[m] == x);
                            } else {
                                assert(alphabet@[m + 1] == x);
                            }
                        } else {
                            assert(alphabet@[pos as int] == x);
                        }
                    }
                    if alphabet@.contains(x) {
                        let m = choose|m: int| 0 <= m < alphabet@.len() && alphabet@[m] == x;
                        if m < pos {
                            assert(old_alpha[m] == x);
                            assert(old_alpha.contains(x));
                        } else if m == pos {
                            assert(pre1[i as int] == x);
                        } else {
                            assert(old_alpha[m - 1] == x);
                            assert(old_alpha.contains(x));
                        }
                        if old_alpha.contains(x) {
                            let k = choose|k: int| 0 <= k < i && pre[k] == x;
                            assert(pre1[k] == x);
                        }
                    }
                }
            }
        }
        i = i + 1;
    }
    assert(data@.take(data@.len() as int) =~= data@);
    alphabet
}

/// Whether `x` occurs in `s`, comparing by value.
pub fn contains_symbol<T: Symbol>(s: &[T], x: T) -> (r: bool)
    ensures
        r == s@.contains(x),
{
    let v = x.to_u64();
    let mut i: usize = 0;
    while i < s.len()
        invariant
            i <= s.len(),
            forall|j: int| 0 <= j < i ==> s@[j] != x,
            v == x.value(),
        decreases s.len() - i,
    {
        let si = s[i];
        if si.to_u64() == v {
            proof {
                T::value_injective(si, x);
            }
            return true;
        }
        assert(s@[i as int] == si);
        i = i + 1;
    }
    false
}

} // verus!
