//! Facts about the multisets of sequences used by the heap and the tree.
use vstd::prelude::*;

verus! {

broadcast use vstd::seq_lib::group_to_multiset_ensures;

/// Exchanging two of the first `n` elements keeps the multiset of those
/// elements.
pub proof fn lemma_swap_multiset<A>(s: Seq<A>, n: int, i: int, j: int)
    requires
        0 <= i < n,
        0 <= j < n,
        n <= s.len(),
    ensures
        s.update(i, s[j]).update(j, s[i]).subrange(0, n).to_multiset() == s.subrange(
            0,
            n,
        ).to_multiset(),
{
    let t = s.subrange(0, n);
    let u = t.update(i, t[j]);
    let w = u.update(j, t[i]);
    assert(s.update(i, s[j]).update(j, s[i]).subrange(0, n) =~= w);
    assert(u.to_multiset() == t.to_multiset().insert(t[j]).remove(t[i]));
    assert(w.to_multiset() == u.to_multiset().insert(t[i]).remove(u[j]));
    assert(w.to_multiset() =~= t.to_multiset());
}

/// Sequences with one multiset keep one multiset under a map of their
/// elements.
pub proof fn lemma_map_values_multiset<A, B>(s1: Seq<A>, s2: Seq<A>, f: spec_fn(A) -> B)
    requires
        s1.to_multiset() == s2.to_multiset(),
    ensures
        s1.map_values(f).to_multiset() == s2.map_values(f).to_multiset(),
    decreases s1.len(),
{
    if s1.len() == 0 {
        assert(s1.to_multiset().len() == 0);
        assert(s2.to_multiset().len() == 0);
        assert(s2.len() == 0);
        assert(s1.map_values(f) =~= Seq::<B>::empty());
        assert(s2.map_values(f) =~= Seq::<B>::empty());
    } else {
        let x = s1.last();
        let d1 = s1.drop_last();
        assert(s1 =~= d1.push(x));
        assert(s1.to_multiset() == d1.to_multiset().insert(x));
        assert(s2.to_multiset().count(x) > 0);
        assert(s2.contains(x));
        let i = choose|i: int| 0 <= i < s2.len() && s2[i] == x;
        let d2 = s2.remove(i);
        assert(d2.to_multiset() == s2.to_multiset().remove(x));
        assert(d1.to_multiset() =~= d2.to_multiset());
        lemma_map_values_multiset(d1, d2, f);
        assert(s1.map_values(f) =~= d1.map_values(f).push(f(x)));
        let m2 = s2.map_values(f);
        assert(m2.remove(i) =~= d2.map_values(f));
        assert(m2.remove(i).to_multiset() == m2.to_multiset().remove(m2[i]));
        assert(m2.to_multiset().count(f(x)) > 0) by {
            assert(m2.contains(f(x))) by {
                assert(m2[i] == f(x));
            }
        }
        assert(m2.to_multiset() =~= m2.to_multiset().remove(f(x)).insert(f(x)));
    }
}

/// The multiset of a subrange split in two is the sum of the parts.
pub proof fn lemma_split_multiset<A>(s: Seq<A>, lo: int, mid: int, hi: int)
    requires
        0 <= lo <= mid <= hi <= s.len(),
    ensures
        s.subrange(lo, hi).to_multiset() == s.subrange(lo, mid).to_multiset().add(
            s.subrange(mid, hi).to_multiset(),
        ),
{
    assert(s.subrange(lo, hi) =~= s.subrange(lo, mid) + s.subrange(mid, hi));
    vstd::seq_lib::lemma_multiset_commutative(s.subrange(lo, mid), s.subrange(mid, hi));
}

} // verus!
