//! A max-heap that keeps the five nearest neighbours seen so far.
//!
//! A neighbour is a pair of a distance key and a label. The key is the bit
//! pattern of a non-negative squared distance; for such numbers the order of
//! the bit patterns as unsigned integers is the order of the distances, and
//! `INFINITY_KEY` is the pattern of positive infinity, above every finite one.
//! Keys are compared as floats compare such numbers (`key_less`): a
//! comparison with the pattern of a NaN is false.
use vstd::prelude::*;
use vstd::multiset::Multiset;

verus! {

broadcast use vstd::seq_lib::group_to_multiset_ensures;

/// Number of neighbours kept.
pub const K: usize = 5;

/// Key of an infinite distance (the bit pattern of positive infinity).
pub const INFINITY_KEY: u32 = 0x7f80_0000;

/// Label of a fraudulent reference transaction.
pub const FRAUD_LABEL: u8 = 1;

pub type Neighbor = (u32, u8);

/// `a < b` as the float comparison of two distance keys gives it: the keys
/// of numbers from 0 to infinity compare as integers, and a comparison with
/// a NaN (a key above `INFINITY_KEY`) is false.
pub open spec fn key_less(a: u32, b: u32) -> bool {
    a < b && b <= INFINITY_KEY
}

/// `a < b` for distance keys (see `key_less`).
pub fn key_less_than(a: u32, b: u32) -> (r: bool)
    ensures
        r == key_less(a, b),
{
    a < b && b <= INFINITY_KEY
}

/// Heap order at slot `j` among the first `n` slots: no child's key is
/// greater than its parent's.
pub open spec fn heap_at(s: Seq<Neighbor>, n: int, j: int) -> bool {
    &&& (2 * j + 1 < n ==> !key_less(s[j].0, s[2 * j + 1].0))
    &&& (2 * j + 2 < n ==> !key_less(s[j].0, s[2 * j + 2].0))
}

/// The first `n` slots of `s` are a max-heap by key.
pub open spec fn is_heap(s: Seq<Neighbor>, n: int) -> bool {
    forall|j: int| 0 <= j < n ==> #[trigger] heap_at(s, n, j)
}

/// Slot `j` lies in the subtree rooted at slot `i`, for heaps of at most five
/// slots (deeper descendants start at slot 7).
pub open spec fn in_sub(i: int, j: int) -> bool {
    ||| j == i
    ||| j == 2 * i + 1
    ||| j == 2 * i + 2
    ||| 4 * i + 3 <= j <= 4 * i + 6
}

/// What a heap holds, seen from outside: at most five neighbours, in heap
/// order once all five slots are taken.
pub open spec fn valid_view(s: Seq<Neighbor>) -> bool {
    &&& s.len() <= K
    &&& s.len() == K ==> is_heap(s, K as int)
}

/// The effect of `push(d, label)` on the neighbours held.
/// - Not yet full: the new neighbour is added (appended, while fewer than four
///   were held).
/// - Full, and `d` is below the root's key (`key_less`; the largest key when
///   none is a NaN): the root leaves and the new neighbour enters.
/// - Otherwise nothing changes.
pub open spec fn push_result(old: Seq<Neighbor>, new: Seq<Neighbor>, d: u32, label: u8) -> bool {
    if old.len() < K {
        &&& new.len() == old.len() + 1
        &&& new.to_multiset() == old.to_multiset().insert((d, label))
        &&& old.len() + 1 < K ==> new == old.push((d, label))
    } else if key_less(d, old[0].0) {
        &&& new.len() == K
        &&& new.to_multiset() == old.to_multiset().remove(old[0]).insert((d, label))
    } else {
        new == old
    }
}

/// Number of fraud labels among the neighbours.
pub open spec fn fraud_count(s: Seq<Neighbor>) -> nat
    decreases s.len(),
{
    if s.len() == 0 {
        0
    } else {
        fraud_count(s.drop_last()) + if s.last().1 == FRAUD_LABEL { 1nat } else { 0 }
    }
}

/// The fraud score of the neighbours held: the share of fraud labels, or one
/// half when there are none.
pub open spec fn score_of(s: Seq<Neighbor>) -> FraudScore {
    if s.len() == 0 {
        FraudScore { num: 1, den: 2 }
    } else {
        FraudScore { num: fraud_count(s) as usize, den: s.len() as usize }
    }
}

/// A fraud score as the fraction `num / den`.
#[derive(Clone, Copy, Debug, PartialEq, Eq)]
pub struct FraudScore {
    pub num: usize,
    pub den: usize,
}

/// The neighbour heap.
pub struct KnnHeap {
    items: [Neighbor; 5],
    size: usize,
}

impl View for KnnHeap {
    type V = Seq<Neighbor>;

    /// The neighbours held, slot by slot.
    closed spec fn view(&self) -> Seq<Neighbor> {
        self.items@.subrange(0, self.size as int)
    }
}

/// Without NaN keys, no key exceeds the root's.
proof fn lemma_root_is_max(s: Seq<Neighbor>)
    requires
        s.len() == K,
        is_heap(s, K as int),
        keys_at_most_infinity(s),
    ensures
        forall|i: int| 0 <= i < K ==> #[trigger] s[i].0 <= s[0].0,
{
    assert(heap_at(s, 5, 0));
    assert(heap_at(s, 5, 1));
}

impl KnnHeap {
    #[verifier::type_invariant]
    spec fn inv(&self) -> bool {
        &&& self.size <= K
        &&& self.size == K ==> is_heap(self.items@, K as int)
    }

    /// All five slots, the unused ones included.
    pub closed spec fn slots(&self) -> Seq<Neighbor> {
        self.items@
    }

    /// An empty heap, its unused slots holding an infinite key and label 0.
    pub fn new() -> (r: Self)
        ensures
            r@ == Seq::<Neighbor>::empty(),
            r.slots() == Seq::new(K as nat, |i: int| (INFINITY_KEY, 0u8)),
    {
        let r = KnnHeap { items: [(INFINITY_KEY, 0u8);5], size: 0 };
        assert(r@ =~= Seq::<Neighbor>::empty());
        assert(r.slots() =~= Seq::new(K as nat, |i: int| (INFINITY_KEY, 0u8)));
        r
    }

    /// Number of neighbours held.
    pub fn size(&self) -> (r: usize)
        ensures
            r == self@.len(),
    {
        proof {
            use_type_invariant(self);
        }
        self.size
    }

    /// Key at the root once five are held (the farthest neighbour's, when no
    /// key is a NaN); the key of an infinite distance before that.
    pub fn worst(&self) -> (r: u32)
        ensures
            valid_view(self@),
            self@.len() < K ==> r == INFINITY_KEY,
            self@.len() == K ==> r == self@[0].0,
            self@.len() == K && keys_at_most_infinity(self@) ==> forall|i: int|
                0 <= i < K ==> #[trigger] self@[i].0 <= r,
    {
        proof {
            use_type_invariant(self);
            if self.size == K {
                assert(self@ =~= self.items@);
                if keys_at_most_infinity(self@) {
                    lemma_root_is_max(self.items@);
                }
            }
        }
        if self.size < 5 {
            INFINITY_KEY
        } else {
            self.items[0].0
        }
    }

    /// Offers a neighbour at distance key `d` with `label`.
    pub fn push(&mut self, d: u32, label: u8)
        ensures
            valid_view(old(self)@),
            valid_view(final(self)@),
            push_result(old(self)@, final(self)@, d, label),
    {
        proof {
            use_type_invariant(&*self);
        }
        let ghost old_view = self@;
        let mut items = self.items;
        let size = self.size;
        if size < 5 {
            items[size] = (d, label);
            let new_size = size + 1;
            let ghost filled = items@;
            proof {
                assert(items@.subrange(0, new_size as int) =~= old_view.push((d, label)));
                assert(old_view.push((d, label)).to_multiset() == old_view.to_multiset().insert(
                    (d, label),
                ));
            }
            if new_size == 5 {
                Self::heapify(&mut items);
                proof {
                    assert(items@.subrange(0, 5) =~= items@);
                    assert(filled.subrange(0, 5) =~= filled);
                }
            }
            *self = KnnHeap { items, size: new_size };
        } else if key_less_than(d, items[0].0) {
            proof {
                assert(old_view =~= items@);
            }
            let ghost before = items@;
            items[0] = (d, label);
            proof {
                assert(items@ == before.update(0, (d, label)));
                assert(items@.to_multiset() == before.to_multiset().insert((d, label)).remove(
                    before[0],
                ));
                assert(items@.subrange(0, 5) =~= items@);
                assert forall|j: int| 0 <= j < 5 && in_sub(0, j) && j != 0 implies heap_at(
                    items@,
                    5,
                    j,
                ) by {
                    assert(heap_at(before, 5, j));
                }
            }
            Self::sift(&mut items, 5, 0);
            proof {
                assert(items@.subrange(0, 5) =~= items@);
                let a = before.to_multiset();
                assert(a.insert((d, label)).remove(before[0]) =~= a.remove(before[0]).insert(
                    (d, label),
                ));
            }
            *self = KnnHeap { items, size: 5 };
        }
        proof {
            use_type_invariant(&*self);
            assert(self@ =~= self.items@.subrange(0, self.size as int));
            if self.size == K {
                assert(self@ =~= self.items@);
            }
            if old_view.len() == K {
                assert(old_view =~= old(self).items@);
            }
        }
    }

    /// Restores heap order over all five slots.
    fn heapify(items: &mut [Neighbor; 5])
        ensures
            is_heap(final(items)@, 5),
            final(items)@.to_multiset() == old(items)@.to_multiset(),
            final(items)@.len() == 5,
    {
        Self::sift(items, 5, 1);
        Self::sift(items, 5, 0);
        proof {
            assert(final(items)@.subrange(0, 5) =~= final(items)@);
            assert(old(items)@.subrange(0, 5) =~= old(items)@);
        }
    }

    /// Moves the neighbour at slot `i` down until the subtree rooted at `i` is
    /// in heap order, given that it was apart from slot `i` itself.
    fn sift(items: &mut [Neighbor; 5], size: usize, i: usize)
        requires
            size <= 5,
            i < size,
            forall|j: int|
                0 <= j < size && in_sub(i as int, j) && j != i ==> #[trigger] heap_at(
                    old(items)@,
                    size as int,
                    j,
                ),
        ensures
            forall|j: int|
                0 <= j < size && in_sub(i as int, j) ==> #[trigger] heap_at(
                    final(items)@,
                    size as int,
                    j,
                ),
            forall|j: int|
                0 <= j < 5 && (!in_sub(i as int, j) || j >= size) ==> #[trigger] final(items)@[j]
                    == old(items)@[j],
            final(items)@.subrange(0, size as int).to_multiset() == old(items)@.subrange(
                0,
                size as int,
            ).to_multiset(),
    {
        let i0 = i;
        let mut i = i;
        loop
            invariant
                size <= 5,
                i0 < size,
                i < size,
                in_sub(i0 as int, i as int),
                forall|j: int|
                    0 <= j < size && in_sub(i0 as int, j) && j != i ==> #[trigger] heap_at(
                        items@,
                        size as int,
                        j,
                    ),
                i != i0 ==> (forall|c: int|
                    (c == 2 * i + 1 || c == 2 * i + 2) && c < size ==> !key_less(
                        items@[(i - 1) / 2].0,
                        #[trigger] items@[c].0,
                    )),
                i != i0 ==> in_sub(i0 as int, (i - 1) / 2) && (i - 1) / 2 < i,
                forall|j: int|
                    0 <= j < 5 && (!in_sub(i0 as int, j) || j >= size) ==> #[trigger] items@[j]
                        == old(items)@[j],
                items@.subrange(0, size as int).to_multiset() == old(items)@.subrange(
                    0,
                    size as int,
                ).to_multiset(),
            ensures
                forall|j: int|
                    0 <= j < size && in_sub(i0 as int, j) ==> #[trigger] heap_at(
                        items@,
                        size as int,
                        j,
                    ),
                forall|j: int|
                    0 <= j < 5 && (!in_sub(i0 as int, j) || j >= size) ==> #[trigger] items@[j]
                        == old(items)@[j],
                items@.subrange(0, size as int).to_multiset() == old(items)@.subrange(
                    0,
                    size as int,
                ).to_multiset(),
            decreases size - i,
        {
            let mut m = i;
            let l = 2 * i + 1;
            let r = 2 * i + 2;
            if l < size && key_less_than(items[m].0, items[l].0) {
                m = l;
            }
            if r < size && key_less_than(items[m].0, items[r].0) {
                m = r;
            }
            if m == i {
                break;
            }
            let ghost before = items@;
            let a = items[i];
            let b = items[m];
            items[i] = b;
            items[m] = a;
            proof {
                assert(items@ == before.update(i as int, before[m as int]).update(
                    m as int,
                    before[i as int],
                ));
                crate::multiset_facts::lemma_swap_multiset(before, size as int, i as int, m as int);
                assert(heap_at(before, size as int, m as int));
                assert forall|j: int|
                    0 <= j < size && in_sub(i0 as int, j) && j != m implies #[trigger] heap_at(
                        items@,
                        size as int,
                        j,
                    ) by {
                    if j != i {
                        assert(heap_at(before, size as int, j));
                    }
                }
            }
            i = m;
        }
    }

    /// Fraction of fraud labels among the neighbours held; one half when none
    /// is held.
    pub fn fraud_score(&self) -> (r: FraudScore)
        ensures
            valid_view(self@),
            r == score_of(self@),
    {
        proof {
            use_type_invariant(self);
            if self.size == K {
                assert(self@ =~= self.items@);
            }
        }
        if self.size == 0 {
            return FraudScore { num: 1, den: 2 };
        }
        let mut count: usize = 0;
        let mut i: usize = 0;
        while i < self.size
            invariant
                self.size <= K,
                i <= self.size,
                count <= i,
                count == fraud_count(self@.subrange(0, i as int)),
                self@ == self.items@.subrange(0, self.size as int),
            decreases self.size - i,
        {
            proof {
                let t = self@.subrange(0, i + 1);
                assert(t.drop_last() =~= self@.subrange(0, i as int));
            }
            if self.items[i].1 == FRAUD_LABEL {
                count = count + 1;
            }
            i = i + 1;
        }
        proof {
            assert(self@.subrange(0, self.size as int) =~= self@);
        }
        FraudScore { num: count, den: self.size }
    }
}

/// Every key is at most that of an infinite distance: none is the pattern of
/// a NaN or of a negative number.
pub open spec fn keys_at_most_infinity(s: Seq<Neighbor>) -> bool {
    forall|i: int| 0 <= i < s.len() ==> #[trigger] s[i].0 <= INFINITY_KEY
}

/// The key `worst` returns for a heap holding `s`.
pub open spec fn worst_key(s: Seq<Neighbor>) -> u32 {
    if s.len() < K {
        INFINITY_KEY
    } else {
        s[0].0
    }
}

/// No neighbour held is farther than the worst key.
pub proof fn lemma_keys_below_worst(s: Seq<Neighbor>)
    requires
        valid_view(s),
        keys_at_most_infinity(s),
    ensures
        forall|i: int| 0 <= i < s.len() ==> #[trigger] s[i].0 <= worst_key(s),
{
    if s.len() == K {
        lemma_root_is_max(s);
    }
}

/// A push of a finite key keeps the keys finite and never raises the worst
/// key.
pub proof fn lemma_push_worst(old: Seq<Neighbor>, new: Seq<Neighbor>, d: u32, label: u8)
    requires
        valid_view(old),
        valid_view(new),
        keys_at_most_infinity(old),
        d <= INFINITY_KEY,
        push_result(old, new, d, label),
    ensures
        keys_at_most_infinity(new),
        worst_key(new) <= worst_key(old),
{
    broadcast use vstd::seq_lib::group_to_multiset_ensures;

    let x = (d, label);
    let om = old.to_multiset();
    let nm = new.to_multiset();
    let bound: u32 = if old.len() < K { INFINITY_KEY } else { old[0].0 };
    if old.len() == K {
        lemma_root_is_max(old);
    }
    assert forall|i: int| 0 <= i < new.len() implies #[trigger] new[i].0 <= INFINITY_KEY && (
    new[i].0 <= bound || (old.len() < K)) by {
        assert(new.contains(new[i]));
        assert(nm.count(new[i]) > 0);
        if new[i] != x {
            if old.len() < K {
                assert(om.count(new[i]) > 0);
            } else if key_less(d, old[0].0) {
                assert(om.count(new[i]) > 0);
            } else {
                assert(new == old);
            }
            assert(old.contains(new[i]));
            let j = choose|j: int| 0 <= j < old.len() && old[j] == new[i];
            assert(old[j].0 <= INFINITY_KEY);
        } else if old.len() == K && !key_less(d, old[0].0) {
            assert(new == old);
        }
    }
    if new.len() == K {
        assert(new[0].0 <= INFINITY_KEY);
    }
}

/// `h` holds some of the neighbours offered (`all`): as many as were
/// offered, up to five, and every one offered if fewer than five.
pub open spec fn keeps_offered(h: Seq<Neighbor>, all: Multiset<Neighbor>) -> bool {
    &&& h.to_multiset().subset_of(all)
    &&& h.len() == if all.len() < K { all.len() } else { K as nat }
    &&& h.len() < K ==> h.to_multiset() == all
}

/// `h` holds the nearest neighbours of all those offered (`all`): it keeps
/// some of them (see `keeps_offered`), and each one offered but not held is
/// at least as far as every one held.
pub open spec fn keeps_nearest(h: Seq<Neighbor>, all: Multiset<Neighbor>) -> bool {
    &&& keeps_offered(h, all)
    &&& forall|e: Neighbor|
        #![trigger all.count(e)]
        all.count(e) > h.to_multiset().count(e) ==> forall|i: int|
            0 <= i < h.len() ==> #[trigger] h[i].0 <= e.0
}

/// Law: a new heap holds the nearest of no neighbours.
pub proof fn lemma_new_keeps_nearest()
    ensures
        keeps_nearest(Seq::<Neighbor>::empty(), Multiset::<Neighbor>::empty()),
{
    assert(Seq::<Neighbor>::empty().to_multiset() =~= Multiset::<Neighbor>::empty());
}

/// Law: `push` keeps some of what was offered. If the heap held some of the
/// neighbours offered so far (as many as possible up to five), after
/// offering one more it holds some of all of them, whatever the keys.
pub proof fn lemma_push_keeps_offered(
    old: Seq<Neighbor>,
    new: Seq<Neighbor>,
    d: u32,
    label: u8,
    all: Multiset<Neighbor>,
)
    requires
        valid_view(old),
        keeps_offered(old, all),
        push_result(old, new, d, label),
    ensures
        keeps_offered(new, all.insert((d, label))),
{
    let x = (d, label);
    let all2 = all.insert(x);
    let om = old.to_multiset();
    let nm = new.to_multiset();
    if old.len() < K {
        assert(om == all);
        assert(nm =~= all2);
    } else {
        assert(all.len() >= K);
        if key_less(d, old[0].0) {
            assert(nm == om.remove(old[0]).insert(x));
        } else {
            assert(new == old);
        }
        assert(nm.subset_of(all2)) by {
            assert forall|e: Neighbor| nm.count(e) <= all2.count(e) by {
                assert(om.count(e) <= all.count(e));
            }
        }
    }
}

/// Law: `push` keeps the nearest neighbours. If the heap held the nearest of
/// the neighbours offered so far, none of them with a NaN key, after
/// offering one more with a key that is not a NaN it holds the nearest of
/// all of them.
pub proof fn lemma_push_keeps_nearest(
    old: Seq<Neighbor>,
    new: Seq<Neighbor>,
    d: u32,
    label: u8,
    all: Multiset<Neighbor>,
)
    requires
        valid_view(old),
        keys_at_most_infinity(old),
        d <= INFINITY_KEY,
        keeps_nearest(old, all),
        push_result(old, new, d, label),
    ensures
        keeps_nearest(new, all.insert((d, label))),
{
    let x = (d, label);
    let all2 = all.insert(x);
    let om = old.to_multiset();
    let nm = new.to_multiset();
    if old.len() < K {
        assert(om == all);
        assert(nm =~= all2);
    } else {
        lemma_root_is_max(old);
        let r = old[0];
        assert(all.len() >= K);
        assert forall|i: int| 0 <= i < new.len() implies #[trigger] new[i].0 <= r.0 by {
            assert(new.contains(new[i]));
            if new[i] != x {
                assert(nm.count(new[i]) > 0);
                assert(om.count(new[i]) > 0);
                assert(old.contains(new[i]));
                let j = choose|j: int| 0 <= j < old.len() && old[j] == new[i];
                assert(old[j].0 <= r.0);
            }
        }
        if key_less(d, r.0) {
            assert(nm == om.remove(r).insert(x));
            assert(nm.subset_of(all2)) by {
                assert forall|e: Neighbor| nm.count(e) <= all2.count(e) by {
                    assert(om.count(e) <= all.count(e));
                }
            }
            assert forall|e: Neighbor| all2.count(e) > nm.count(e) implies forall|i: int|
                0 <= i < new.len() ==> #[trigger] new[i].0 <= e.0 by {
                if e != r {
                    assert(all.count(e) > om.count(e));
                    assert(old[0].0 <= e.0);
                }
            }
        } else {
            assert(new == old);
            assert(nm.subset_of(all2)) by {
                assert forall|e: Neighbor| nm.count(e) <= all2.count(e) by {
                    assert(om.count(e) <= all.count(e));
                }
            }
            assert forall|e: Neighbor| all2.count(e) > nm.count(e) implies forall|i: int|
                0 <= i < new.len() ==> #[trigger] new[i].0 <= e.0 by {
                if e != x {
                    assert(all.count(e) > om.count(e));
                    assert(old[0].0 <= e.0);
                }
            }
        }
    }
}

/// The heap after the first `i` offers of a run that started empty holds
/// the nearest of those offers.
proof fn lemma_prefix_keeps_nearest(xs: Seq<Neighbor>, states: Seq<Seq<Neighbor>>, i: int)
    requires
        states.len() == xs.len() + 1,
        states[0] == Seq::<Neighbor>::empty(),
        forall|j: int| 0 <= j <= xs.len() ==> valid_view(#[trigger] states[j]),
        forall|j: int|
            0 <= j < xs.len() ==> push_result(
                #[trigger] states[j],
                states[j + 1],
                xs[j].0,
                xs[j].1,
            ),
        forall|j: int| 0 <= j < xs.len() ==> (#[trigger] xs[j]).0 <= INFINITY_KEY,
        0 <= i <= xs.len(),
    ensures
        keeps_nearest(states[i], xs.take(i).to_multiset()),
        keys_at_most_infinity(states[i]),
    decreases i,
{
    broadcast use vstd::seq_lib::group_to_multiset_ensures;

    if i == 0 {
        assert(xs.take(0) =~= Seq::<Neighbor>::empty());
        lemma_new_keeps_nearest();
    } else {
        lemma_prefix_keeps_nearest(xs, states, i - 1);
        assert(valid_view(states[i - 1]));
        assert(xs[i - 1].0 <= INFINITY_KEY);
        assert(valid_view(states[i]));
        lemma_push_worst(states[i - 1], states[i], xs[i - 1].0, xs[i - 1].1);
        lemma_push_keeps_nearest(
            states[i - 1],
            states[i],
            xs[i - 1].0,
            xs[i - 1].1,
            xs.take(i - 1).to_multiset(),
        );
        assert(xs.take(i) =~= xs.take(i - 1).push(xs[i - 1]));
    }
}

/// Law: a heap that starts empty and is offered `xs` one by one holds the
/// nearest of them: with `states[i]` the neighbours held after the first `i`
/// offers, the last state holds `min(n, 5)` of the `n` offers, all of them
/// while fewer than five were offered, and none it dropped is nearer than
/// one it holds, when no key offered is a NaN.
pub proof fn lemma_pushes_keep_nearest(xs: Seq<Neighbor>, states: Seq<Seq<Neighbor>>)
    requires
        states.len() == xs.len() + 1,
        states[0] == Seq::<Neighbor>::empty(),
        forall|j: int| 0 <= j <= xs.len() ==> valid_view(#[trigger] states[j]),
        forall|j: int|
            0 <= j < xs.len() ==> push_result(
                #[trigger] states[j],
                states[j + 1],
                xs[j].0,
                xs[j].1,
            ),
        forall|j: int| 0 <= j < xs.len() ==> (#[trigger] xs[j]).0 <= INFINITY_KEY,
    ensures
        keeps_nearest(states[xs.len() as int], xs.to_multiset()),
{
    lemma_prefix_keeps_nearest(xs, states, xs.len() as int);
    assert(xs.take(xs.len() as int) =~= xs);
}

/// There are no more fraud labels than neighbours.
pub proof fn lemma_fraud_count_bound(s: Seq<Neighbor>)
    ensures
        fraud_count(s) <= s.len(),
    decreases s.len(),
{
    if s.len() > 0 {
        lemma_fraud_count_bound(s.drop_last());
    }
}

} // verus!
