//! An array-backed binary max-heap over [`Neighbor`] records, ordered by the
//! distance field. The root always holds a record of maximal distance.
//!
//! The heap serves two roles in the index: with plain distances it keeps the
//! best candidates found so far (evicting the worst when over capacity), and
//! with negated distances it orders the search frontier nearest-first.

use vstd::prelude::*;
use vstd::multiset::Multiset;
use crate::neighbor::Neighbor;

verus! {

broadcast use vstd::seq_lib::group_to_multiset_ensures;

/// Ascending order of the distance fields across the whole sequence.
pub open spec fn sorted_by_distance(s: Seq<Neighbor>) -> bool {
    forall|i: int, j: int| 0 <= i <= j < s.len() ==> s[i]._distance <= s[j]._distance
}

/// The max-heap shape on the first `end` entries: no child's distance
/// exceeds its parent's.
pub open spec fn heap_ordered_upto(s: Seq<Neighbor>, end: int) -> bool {
    forall|i: int| 1 <= i < end ==> (#[trigger] s[i])._distance <= s[(i - 1) / 2]._distance
}

/// The max-heap shape on the whole sequence.
pub open spec fn heap_ordered(s: Seq<Neighbor>) -> bool {
    heap_ordered_upto(s, s.len() as int)
}

/// The heap shape on `[0, end)`, except that the entry at `pos` may exceed
/// its parent; the children of `pos`, if any, are still bounded by the
/// parent of `pos`.
spec fn heap_except_up(s: Seq<Neighbor>, end: int, pos: int) -> bool {
    &&& forall|i: int|
        1 <= i < end && i != pos ==> (#[trigger] s[i])._distance <= s[(i - 1) / 2]._distance
    &&& pos > 0 ==> forall|i: int|
        1 <= i < end && (i - 1) / 2 == pos ==> (#[trigger] s[i])._distance <= s[
            (pos - 1) / 2
        ]._distance
}

/// The heap shape on `[0, end)`, except that the children of `pos` may
/// exceed the entry at `pos`; the children of `pos` are still bounded by
/// the parent of `pos`, when `pos` has one.
spec fn heap_except_down(s: Seq<Neighbor>, end: int, pos: int) -> bool {
    &&& forall|i: int|
        1 <= i < end && (i - 1) / 2 != pos ==> (#[trigger] s[i])._distance <= s[
            (i - 1) / 2
        ]._distance
    &&& pos > 0 ==> forall|i: int|
        1 <= i < end && (i - 1) / 2 == pos ==> (#[trigger] s[i])._distance <= s[
            (pos - 1) / 2
        ]._distance
}

/// In a heap-shaped prefix, every entry is bounded by the root.
proof fn lemma_heap_upto_root_max(s: Seq<Neighbor>, end: int, i: int)
    requires
        heap_ordered_upto(s, end),
        0 <= i < end,
        end <= s.len(),
    ensures
        s[i]._distance <= s[0]._distance,
    decreases i,
{
    if i > 0 {
        assert(s[i]._distance <= s[(i - 1) / 2]._distance);
        lemma_heap_upto_root_max(s, end, (i - 1) / 2);
    }
}

/// Swapping two entries of a sequence leaves its multiset unchanged.
proof fn lemma_swap_multiset(s: Seq<Neighbor>, i: int, j: int)
    requires
        0 <= i < s.len(),
        0 <= j < s.len(),
    ensures
        s.update(i, s[j]).update(j, s[i]).to_multiset() == s.to_multiset(),
{
    broadcast use vstd::multiset::group_multiset_axioms;

    if i == j {
        assert(s.update(i, s[j]).update(j, s[i]) =~= s);
    } else {
        let s1 = s.update(i, s[j]);
        let s2 = s1.update(j, s[i]);
        assert(s.to_multiset().contains(s[i]));
        assert(s1.to_multiset().contains(s1[j]));
        assert(s1[j] == s[j]);
        assert(s2.to_multiset() =~= s.to_multiset());
    }
}

/// A prefix permuted in place keeps any upper bound on its distances.
proof fn lemma_permuted_prefix_bound(a: Seq<Neighbor>, b: Seq<Neighbor>, end: int, d: i64)
    requires
        0 <= end <= a.len(),
        a.len() == b.len(),
        b.subrange(0, end).to_multiset() == a.subrange(0, end).to_multiset(),
        forall|i: int| 0 <= i < end ==> (#[trigger] a[i])._distance <= d,
    ensures
        forall|i: int| 0 <= i < end ==> (#[trigger] b[i])._distance <= d,
{
    assert forall|i: int| 0 <= i < end implies (#[trigger] b[i])._distance <= d by {
        let ap = a.subrange(0, end);
        let bp = b.subrange(0, end);
        assert(bp[i] == b[i]);
        assert(bp.contains(b[i]));
        assert(bp.to_multiset().count(b[i]) > 0);
        assert(ap.to_multiset().count(b[i]) > 0);
        assert(ap.contains(b[i]));
        let w = choose|w: int| 0 <= w < ap.len() && ap[w] == b[i];
        assert(a[w] == ap[w]);
    };
}

/// `kept` is a smallest-k selection from `seen`: it is contained in `seen`,
/// holds `min(k, seen.len())` records, and no kept record has a larger
/// distance than a record left out.
pub open spec fn is_k_smallest(seen: Multiset<Neighbor>, k: nat, kept: Multiset<Neighbor>) -> bool {
    &&& kept.subset_of(seen)
    &&& kept.len() == (if seen.len() < k {
        seen.len()
    } else {
        k
    })
    &&& forall|a: Neighbor, b: Neighbor|
        #[trigger] kept.count(a) > 0 && #[trigger] seen.count(b) > kept.count(b)
            ==> a._distance <= b._distance
}

/// A multiset contained in another of the same size equals it.
proof fn lemma_subset_same_len(m1: Multiset<Neighbor>, m2: Multiset<Neighbor>)
    requires
        m1.subset_of(m2),
        m1.len() == m2.len(),
    ensures
        m1 =~= m2,
{
    broadcast use vstd::multiset::group_multiset_axioms;

    let diff = m2.sub(m1);
    assert(diff.len() == 0);
    assert(diff =~= Multiset::empty());
    assert(forall|v: Neighbor| #[trigger] m2.count(v) == m1.count(v) + diff.count(v));
}

/// A contained multiset is no larger.
proof fn lemma_subset_len(m1: Multiset<Neighbor>, m2: Multiset<Neighbor>)
    requires
        m1.subset_of(m2),
    ensures
        m1.len() <= m2.len(),
{
    broadcast use vstd::multiset::group_multiset_axioms;

    let diff = m2.sub(m1);
    assert(m2 =~= m1.add(diff));
}

/// In a heap-shaped sequence, every held record is bounded by the root.
pub proof fn lemma_root_is_max(s: Seq<Neighbor>)
    requires
        heap_ordered(s),
        s.len() > 0,
    ensures
        forall|x: Neighbor| #[trigger] s.to_multiset().count(x) > 0 ==> x._distance <= s[0]._distance,
{
    assert forall|x: Neighbor| #[trigger] s.to_multiset().count(x) > 0 implies x._distance <= s[
        0
    ]._distance by {
        assert(s.contains(x));
        let i = choose|i: int| 0 <= i < s.len() && s[i] == x;
        lemma_heap_upto_root_max(s, s.len() as int, i);
    };
}

/// The bounded top-k law, rejection case: a record no closer than every
/// kept one may be left out of a full smallest-k selection, which then
/// remains one for the enlarged pool.
pub proof fn lemma_retain_smallest_skip(
    seen: Multiset<Neighbor>,
    k: nat,
    kept: Multiset<Neighbor>,
    item: Neighbor,
)
    requires
        is_k_smallest(seen, k, kept),
        kept.len() == k,
        forall|y: Neighbor| #[trigger] kept.count(y) > 0 ==> y._distance <= item._distance,
    ensures
        is_k_smallest(seen.insert(item), k, kept),
{
    broadcast use vstd::multiset::group_multiset_axioms;

    lemma_subset_len(kept, seen);
}

/// Removing a maximal record from a smallest-k selection leaves a
/// smallest-(len-1) selection of the same pool.
pub proof fn lemma_retain_smallest_pop_max(
    seen: Multiset<Neighbor>,
    k: nat,
    kept: Multiset<Neighbor>,
    w: Neighbor,
)
    requires
        is_k_smallest(seen, k, kept),
        kept.count(w) > 0,
        forall|y: Neighbor| #[trigger] kept.count(y) > 0 ==> y._distance <= w._distance,
    ensures
        is_k_smallest(seen, (kept.len() - 1) as nat, kept.remove(w)),
{
    broadcast use vstd::multiset::group_multiset_axioms;

    lemma_subset_len(kept, seen);
    let kept2 = kept.remove(w);
    assert(kept =~= kept2.insert(w));
    assert(kept2.len() == kept.len() - 1);
    assert forall|a: Neighbor, b: Neighbor|
        #[trigger] kept2.count(a) > 0 && #[trigger] seen.count(b) > kept2.count(b) implies
        a._distance <= b._distance by {
        assert(kept.count(a) > 0);
        if b == w {
            assert(a._distance <= w._distance);
        } else {
            assert(seen.count(b) > kept.count(b));
        }
    };
}

/// A smallest-k selection that holds no more than a smaller cap is also a
/// smallest selection for that cap.
pub proof fn lemma_retain_smallest_cap_lower(
    seen: Multiset<Neighbor>,
    k1: nat,
    k2: nat,
    kept: Multiset<Neighbor>,
)
    requires
        is_k_smallest(seen, k1, kept),
        kept.len() <= k2 <= k1,
    ensures
        is_k_smallest(seen, k2, kept),
{
    broadcast use vstd::multiset::group_multiset_axioms;

    lemma_subset_len(kept, seen);
}

/// The bounded top-k law, under-capacity case: while fewer than `k` records
/// are kept, pushing a record onto a smallest-k selection keeps it one.
pub proof fn lemma_retain_smallest_step_small(
    seen: Multiset<Neighbor>,
    k: nat,
    kept: Multiset<Neighbor>,
    item: Neighbor,
)
    requires
        is_k_smallest(seen, k, kept),
        kept.len() < k,
    ensures
        is_k_smallest(seen.insert(item), k, kept.insert(item)),
{
    broadcast use vstd::multiset::group_multiset_axioms;

    assert(kept.len() == seen.len());
    lemma_subset_same_len(kept, seen);
    assert(seen.insert(item) =~= kept.insert(item));
}

/// The bounded top-k law, at-capacity case: pushing a record onto a full
/// smallest-k selection and then removing a maximal record of the enlarged
/// pool leaves a smallest-k selection of everything seen.
pub proof fn lemma_retain_smallest_step_evict(
    seen: Multiset<Neighbor>,
    k: nat,
    kept: Multiset<Neighbor>,
    item: Neighbor,
    evicted: Neighbor,
)
    requires
        is_k_smallest(seen, k, kept),
        k >= 1,
        kept.len() == k,
        kept.insert(item).count(evicted) > 0,
        forall|x: Neighbor|
            #[trigger] kept.insert(item).count(x) > 0 ==> x._distance <= evicted._distance,
    ensures
        is_k_smallest(seen.insert(item), k, kept.insert(item).remove(evicted)),
{
    broadcast use vstd::multiset::group_multiset_axioms;

    let seen2 = seen.insert(item);
    let mid = kept.insert(item);
    let kept2 = mid.remove(evicted);
    assert(forall|v: Neighbor| #[trigger] kept2.count(v) <= seen2.count(v));
    assert(mid =~= kept2.insert(evicted));
    assert(kept2.len() + 1 == mid.len());
    assert(mid.len() == k + 1);
    lemma_subset_len(kept, seen);
    assert(seen2.len() >= k + 1);
    assert(kept2.len() == k);
    assert forall|a: Neighbor, b: Neighbor|
        #[trigger] kept2.count(a) > 0 && #[trigger] seen2.count(b) > kept2.count(b) implies
        a._distance <= b._distance by {
        assert(mid.count(a) > 0);
        assert(a._distance <= evicted._distance);
        if b != evicted {
            assert(seen.count(b) > kept.count(b));
            if kept.count(a) > 0 {
                assert(a._distance <= b._distance);
            } else {
                assert(a == item);
                // were the new record farther than an already dropped one,
                // it would be the unique maximum and so the one evicted
                if item._distance > b._distance {
                    assert(kept2.count(item) > 0);
                    assert(mid.count(item) == 1);
                    assert(item != evicted);
                    assert(kept.count(evicted) > 0);
                    assert(evicted._distance <= b._distance);
                    assert(mid.count(item) > 0);
                    assert(item._distance <= evicted._distance);
                    assert(false);
                }
            }
        }
    };
}

/// An array-backed binary max-heap of [`Neighbor`] records, ordered by
/// distance.
pub struct BinaryHeap {
    data: Vec<Neighbor>,
}

impl View for BinaryHeap {
    type V = Seq<Neighbor>;

    closed spec fn view(&self) -> Seq<Neighbor> {
        self.data@
    }
}

impl BinaryHeap {
    /// The heap-order invariant.
    pub open spec fn wf(&self) -> bool {
        heap_ordered(self@)
    }

    /// An empty heap.
    pub fn new() -> (r: BinaryHeap)
        ensures
            r@ =~= Seq::<Neighbor>::empty(),
            r.wf(),
    {
        BinaryHeap { data: Vec::new() }
    }

    /// An empty heap with room reserved for `capacity` records.
    pub fn with_capacity(capacity: usize) -> (r: BinaryHeap)
        ensures
            r@ =~= Seq::<Neighbor>::empty(),
            r.wf(),
    {
        BinaryHeap { data: Vec::with_capacity(capacity) }
    }

    /// The number of records held.
    pub fn len(&self) -> (r: usize)
        ensures
            r == self@.len(),
    {
        self.data.len()
    }

    /// Whether no record is held.
    pub fn is_empty(&self) -> (r: bool)
        ensures
            r == (self@.len() == 0),
    {
        self.data.len() == 0
    }

    /// Swaps the entries at `i` and `j`.
    fn swap_at(&mut self, i: usize, j: usize)
        requires
            i < old(self)@.len(),
            j < old(self)@.len(),
        ensures
            final(self)@ == old(self)@.update(i as int, old(self)@[j as int]).update(
                j as int,
                old(self)@[i as int],
            ),
            final(self)@.to_multiset() == old(self)@.to_multiset(),
            final(self)@.len() == old(self)@.len(),
    {
        proof {
            lemma_swap_multiset(self@, i as int, j as int);
        }
        let a = self.data[i];
        let b = self.data[j];
        self.data[i] = b;
        self.data[j] = a;
    }

    /// Appends a record and restores heap order by sifting it up towards
    /// the root.
    pub fn push(&mut self, item: Neighbor)
        requires
            old(self).wf(),
        ensures
            final(self).wf(),
            final(self)@.to_multiset() == old(self)@.to_multiset().insert(item),
            final(self)@.len() == old(self)@.len() + 1,
    {
        let ghost orig = self@;
        let mut pos = self.data.len();
        self.data.push(item);
        proof {
            assert(self@ =~= orig.push(item));
            assert(heap_except_up(self@, self@.len() as int, pos as int)) by {
                assert(forall|i: int|
                    1 <= i < self@.len() && i != pos ==> (#[trigger] self@[i])._distance <= self@[
                        (i - 1) / 2
                    ]._distance) by {
                    assert(forall|i: int| 0 <= i < orig.len() ==> self@[i] == orig[i]);
                };
            };
        }
        while pos > 0 && self.data[(pos - 1) / 2]._distance < self.data[pos]._distance
            invariant
                pos < self@.len(),
                self@.len() == orig.len() + 1,
                heap_except_up(self@, self@.len() as int, pos as int),
                self@.to_multiset() == orig.to_multiset().insert(item),
            decreases pos,
        {
            let parent = (pos - 1) / 2;
            let ghost pre = self@;
            self.swap_at(parent, pos);
            proof {
                let n = self@.len() as int;
                let p = parent as int;
                let q = pos as int;
                assert(forall|i: int|
                    0 <= i < n && i != p && i != q ==> self@[i] == pre[i]);
                assert(self@[p] == pre[q]);
                assert(self@[q] == pre[p]);
                assert(heap_except_up(self@, n, p)) by {
                    assert forall|i: int| 1 <= i < n && i != p implies (#[trigger] self@[i])._distance
                        <= self@[(i - 1) / 2]._distance by {
                        if i == q {
                            assert(self@[q]._distance == pre[p]._distance);
                            assert(self@[(q - 1) / 2] == self@[p]);
                            assert(pre[p]._distance <= pre[q]._distance);
                        } else if (i - 1) / 2 == q {
                            assert(pre[i]._distance <= pre[(q - 1) / 2]._distance);
                            assert(self@[(i - 1) / 2] == self@[q]);
                        } else if (i - 1) / 2 == p {
                            assert(pre[i]._distance <= pre[p]._distance);
                            assert(pre[p]._distance <= pre[q]._distance);
                            assert(self@[(i - 1) / 2] == self@[p]);
                        } else {
                            assert(pre[i]._distance <= pre[(i - 1) / 2]._distance);
                        }
                    };
                    if p > 0 {
                        assert forall|i: int| 1 <= i < n && (i - 1) / 2 == p implies (
                        #[trigger] self@[i])._distance <= self@[(p - 1) / 2]._distance by {
                            assert((p - 1) / 2 < p);
                            assert(self@[(p - 1) / 2] == pre[(p - 1) / 2]);
                            if i == q {
                                assert(self@[q]._distance == pre[p]._distance);
                                assert(pre[p]._distance <= pre[(p - 1) / 2]._distance);
                            } else {
                                assert(pre[i]._distance <= pre[p]._distance);
                                assert(pre[p]._distance <= pre[(p - 1) / 2]._distance);
                            }
                        };
                    }
                };
            }
            pos = parent;
        }
        proof {
            assert(heap_ordered(self@)) by {
                let n = self@.len() as int;
                if pos == 0 {
                    assert(forall|i: int|
                        1 <= i < n ==> (#[trigger] self@[i])._distance <= self@[
                            (i - 1) / 2
                        ]._distance);
                } else {
                    assert(self@[pos as int]._distance <= self@[(pos as int - 1) / 2]._distance);
                }
            };
        }
    }

    /// Restores heap order on `[0, end)` when only the root may be out of
    /// place, by sifting the root down, always towards the larger child.
    fn sift_down_root(&mut self, end: usize)
        requires
            1 <= end <= old(self)@.len(),
            heap_except_down(old(self)@, end as int, 0),
        ensures
            final(self)@.len() == old(self)@.len(),
            heap_ordered_upto(final(self)@, end as int),
            final(self)@.to_multiset() == old(self)@.to_multiset(),
            forall|i: int|
                end <= i < old(self)@.len() ==> final(self)@[i] == old(self)@[i],
            final(self)@.subrange(0, end as int).to_multiset() == old(self)@.subrange(
                0,
                end as int,
            ).to_multiset(),
    {
        let ghost orig = self@;
        let mut pos: usize = 0;
        while pos < end / 2
            invariant
                pos < end <= self@.len(),
                self@.len() == orig.len(),
                heap_except_down(self@, end as int, pos as int),
                self@.to_multiset() == orig.to_multiset(),
                forall|i: int| end <= i < orig.len() ==> self@[i] == orig[i],
                self@.subrange(0, end as int).to_multiset() == orig.subrange(
                    0,
                    end as int,
                ).to_multiset(),
            ensures
                heap_ordered_upto(self@, end as int),
            decreases end - pos,
        {
            let mut child = 2 * pos + 1;
            assert(child < end);
            if child + 1 < end && self.data[child]._distance <= self.data[child + 1]._distance {
                child = child + 1;
            }
            if self.data[child]._distance <= self.data[pos]._distance {
                proof {
                    assert(heap_ordered_upto(self@, end as int)) by {
                        assert forall|i: int| 1 <= i < end implies (#[trigger] self@[i])._distance
                            <= self@[(i - 1) / 2]._distance by {
                            if (i - 1) / 2 == pos {
                                assert(i == 2 * pos + 1 || i == 2 * pos + 2);
                                assert(self@[i]._distance <= self@[child as int]._distance
                                    || i == child);
                            }
                        };
                    };
                }
                break ;
            }
            let ghost pre = self@;
            let ghost preprefix = self@.subrange(0, end as int);
            self.swap_at(pos, child);
            proof {
                let n = self@.len() as int;
                let p = pos as int;
                let c = child as int;
                assert(forall|i: int|
                    0 <= i < n && i != p && i != c ==> self@[i] == pre[i]);
                assert(self@[p] == pre[c]);
                assert(self@[c] == pre[p]);
                assert(self@.subrange(0, end as int) =~= preprefix.update(p, pre[c]).update(
                    c,
                    pre[p],
                ));
                lemma_swap_multiset(preprefix, p, c);
                assert(preprefix[p] == pre[p] && preprefix[c] == pre[c]);
                assert(heap_except_down(self@, end as int, c)) by {
                    assert forall|i: int| 1 <= i < end && (i - 1) / 2 != c implies (
                    #[trigger] self@[i])._distance <= self@[(i - 1) / 2]._distance by {
                        if i == c {
                            assert(self@[c]._distance == pre[p]._distance);
                            assert((c - 1) / 2 == p);
                            // the swap ran only because the child exceeded the parent
                            assert(pre[p]._distance < pre[c]._distance);
                            assert(self@[p]._distance == pre[c]._distance);
                        } else if i == p {
                            // p's parent, when p > 0: guarded by heap_except_down's
                            // second conjunct of `pre` at pos = p
                            assert(self@[p]._distance == pre[c]._distance);
                            assert((c - 1) / 2 == p);
                            assert(pre[c]._distance <= pre[(p - 1) / 2]._distance);
                            assert(self@[(p - 1) / 2] == pre[(p - 1) / 2]);
                        } else if (i - 1) / 2 == p {
                            // the sibling of c under p: bounded by the chosen child
                            assert(i == 2 * p + 1 || i == 2 * p + 2);
                            assert(pre[i]._distance <= pre[c]._distance);
                            assert(self@[(i - 1) / 2] == self@[p]);
                            assert(self@[p]._distance == pre[c]._distance);
                        } else {
                            assert(self@[i] == pre[i]);
                            assert(self@[(i - 1) / 2] == pre[(i - 1) / 2]);
                            assert(pre[i]._distance <= pre[(i - 1) / 2]._distance);
                        }
                    };
                    assert forall|i: int| 1 <= i < end && (i - 1) / 2 == c implies (
                    #[trigger] self@[i])._distance <= self@[(c - 1) / 2]._distance by {
                        assert((c - 1) / 2 == p);
                        assert(self@[i] == pre[i]);
                        assert(pre[i]._distance <= pre[c]._distance);
                        assert(self@[p]._distance == pre[c]._distance);
                    };
                };
            }
            pos = child;
        }
    }

    /// Removes and returns a record of maximal distance, or `None` when the
    /// heap is empty; the last leaf refills the root and sifts down.
    pub fn pop(&mut self) -> (r: Option<Neighbor>)
        requires
            old(self).wf(),
        ensures
            final(self).wf(),
            old(self)@.len() == 0 ==> r is None && final(self)@ == old(self)@,
            old(self)@.len() > 0 ==> {
                &&& r is Some
                &&& r->0 == old(self)@[0]
                &&& old(self)@.to_multiset().contains(r->0)
                &&& final(self)@.to_multiset() == old(self)@.to_multiset().remove(r->0)
                &&& final(self)@.len() == old(self)@.len() - 1
                &&& forall|x: Neighbor|
                    old(self)@.to_multiset().count(x) > 0 ==> x._distance <= (r->0)._distance
            },
    {
        broadcast use vstd::multiset::group_multiset_axioms;

        let ghost orig = self@;
        if self.data.len() == 0 {
            return None;
        }
        proof {
            assert forall|x: Neighbor| orig.to_multiset().count(x) > 0 implies x._distance <= orig[
                0
            ]._distance by {
                assert(orig.contains(x));
                let i = choose|i: int| 0 <= i < orig.len() && orig[i] == x;
                lemma_heap_upto_root_max(orig, orig.len() as int, i);
            };
            assert(orig.to_multiset().contains(orig[0]));
        }
        let result = self.data[0];
        let last = match self.data.pop() {
            Some(v) => v,
            None => {
                proof {
                    assert(false);
                }
                return None;
            },
        };
        proof {
            assert(orig =~= self@.push(last));
            assert(orig.to_multiset() == self@.to_multiset().insert(last));
        }
        if self.data.len() == 0 {
            proof {
                assert(orig.len() == 1);
                assert(result == last);
                assert(self@.to_multiset() =~= orig.to_multiset().remove(result));
            }
            return Some(result);
        }
        let ghost afterpop = self@;
        self.data[0] = last;
        proof {
            assert(self@ =~= afterpop.update(0, last));
            assert(self@.to_multiset() == afterpop.to_multiset().insert(last).remove(afterpop[0]));
            assert(afterpop[0] == orig[0]);
            assert(self@.to_multiset() =~= orig.to_multiset().remove(orig[0]));
            assert(heap_except_down(self@, self@.len() as int, 0)) by {
                assert forall|i: int| 1 <= i < self@.len() && (i - 1) / 2 != 0 implies (
                #[trigger] self@[i])._distance <= self@[(i - 1) / 2]._distance by {
                    assert(self@[i] == orig[i]);
                    assert((i - 1) / 2 >= 1);
                    assert(self@[(i - 1) / 2] == orig[(i - 1) / 2]);
                };
            };
        }
        let end = self.data.len();
        self.sift_down_root(end);
        Some(result)
    }

    /// The retain-smallest-k pattern: push a record, then evict the current
    /// maximum when more than `k` records are held. Folding this over any
    /// sequence of records, in any order, keeps the contents a smallest-k
    /// selection of everything pushed so far.
    pub fn push_bounded(&mut self, item: Neighbor, k: usize)
        requires
            old(self).wf(),
            k >= 1,
            old(self)@.len() <= k,
        ensures
            final(self).wf(),
            final(self)@.len() == (if old(self)@.len() < k {
                old(self)@.len() as int + 1
            } else {
                k as int
            }),
            forall|seen: Multiset<Neighbor>|
                #[trigger] is_k_smallest(seen, k as nat, old(self)@.to_multiset())
                    ==> is_k_smallest(seen.insert(item), k as nat, final(self)@.to_multiset()),
    {
        let ghost kept0 = self@.to_multiset();
        self.push(item);
        if self.data.len() > k {
            let ghost mid = self@.to_multiset();
            let evicted = self.pop();
            proof {
                let ev = evicted->0;
                assert(mid == kept0.insert(item));
                assert(self@.to_multiset() == mid.remove(ev));
                assert forall|seen: Multiset<Neighbor>|
                    #[trigger] is_k_smallest(seen, k as nat, kept0) implies is_k_smallest(
                    seen.insert(item),
                    k as nat,
                    self@.to_multiset(),
                ) by {
                    assert(kept0.len() == k);
                    lemma_retain_smallest_step_evict(seen, k as nat, kept0, item, ev);
                };
            }
        } else {
            proof {
                assert forall|seen: Multiset<Neighbor>|
                    #[trigger] is_k_smallest(seen, k as nat, kept0) implies is_k_smallest(
                    seen.insert(item),
                    k as nat,
                    self@.to_multiset(),
                ) by {
                    assert(kept0.len() < k);
                    lemma_retain_smallest_step_small(seen, k as nat, kept0, item);
                };
            }
        }
    }

    /// The bounded top-k law, whole: folding the retain-smallest-k pattern
    /// over any list of records, in whatever order it arrives, leaves the
    /// heap holding exactly a smallest-k selection of the list — with
    /// distinct distances, exactly the k smallest records seen.
    pub fn k_smallest_of(items: &Vec<Neighbor>, k: usize) -> (r: BinaryHeap)
        requires
            k >= 1,
        ensures
            r.wf(),
            is_k_smallest(items@.to_multiset(), k as nat, r@.to_multiset()),
    {
        broadcast use vstd::multiset::group_multiset_axioms;

        let mut h = BinaryHeap::new();
        proof {
            assert(h@.to_multiset() =~= Multiset::<Neighbor>::empty()) by {
                assert(h@.len() == 0);
                assert(forall|x: Neighbor| !h@.contains(x));
            };
            assert(items@.subrange(0, 0) =~= Seq::<Neighbor>::empty());
            assert(items@.subrange(0, 0).to_multiset() =~= Multiset::<Neighbor>::empty());
        }
        let mut i: usize = 0;
        while i < items.len()
            invariant
                k >= 1,
                i <= items@.len(),
                h.wf(),
                h@.len() <= k,
                is_k_smallest(
                    items@.subrange(0, i as int).to_multiset(),
                    k as nat,
                    h@.to_multiset(),
                ),
            decreases items@.len() - i,
        {
            let ghost seen = items@.subrange(0, i as int).to_multiset();
            h.push_bounded(items[i], k);
            proof {
                assert(items@.subrange(0, i as int + 1) =~= items@.subrange(0, i as int).push(
                    items@[i as int],
                ));
            }
            i = i + 1;
        }
        proof {
            assert(items@.subrange(0, items@.len() as int) =~= items@);
        }
        h
    }

    /// Returns a record of maximal distance without removing it, or `None`
    /// when the heap is empty.
    pub fn peek(&self) -> (r: Option<Neighbor>)
        requires
            self.wf(),
        ensures
            match r {
                None => self@.len() == 0,
                Some(v) => {
                    &&& self@.len() > 0
                    &&& v == self@[0]
                    &&& self@.to_multiset().contains(v)
                    &&& forall|x: Neighbor|
                        self@.to_multiset().count(x) > 0 ==> x._distance <= v._distance
                },
            },
    {
        if self.data.len() == 0 {
            None
        } else {
            proof {
                assert forall|x: Neighbor| self@.to_multiset().count(x) > 0 implies x._distance
                    <= self@[0]._distance by {
                    assert(self@.contains(x));
                    let i = choose|i: int| 0 <= i < self@.len() && self@[i] == x;
                    lemma_heap_upto_root_max(self@, self@.len() as int, i);
                };
                assert(self@.to_multiset().contains(self@[0]));
            }
            Some(self.data[0])
        }
    }

    /// Sorts the held records ascending by distance, consuming the heap:
    /// the root is repeatedly swapped behind the shrinking prefix and the
    /// new root sifted down. The result holds exactly the records that were
    /// pushed, as a multiset, in non-descending distance order.
    #[verifier::rlimit(80)]
    pub fn into_sorted_vec(self) -> (r: Vec<Neighbor>)
        requires
            self.wf(),
        ensures
            r@.to_multiset() == self@.to_multiset(),
            r@.len() == self@.len(),
            sorted_by_distance(r@),
    {
        let ghost orig = self@;
        let mut h = self;
        let len = h.data.len();
        let mut end = len;
        while end > 1
            invariant
                h@.len() == len == orig.len(),
                end <= len,
                len > 1 ==> end >= 1,
                h@.to_multiset() == orig.to_multiset(),
                heap_ordered_upto(h@, end as int),
                forall|i: int, j: int|
                    end <= i <= j < len ==> h@[i]._distance <= h@[j]._distance,
                forall|i: int, j: int|
                    0 <= i < end <= j < len ==> h@[i]._distance <= h@[j]._distance,
            decreases end,
        {
            end = end - 1;
            let ghost pre = h@;
            proof {
                assert forall|i: int| 0 <= i < end + 1 implies (#[trigger] pre[i])._distance <= pre[
                    0
                ]._distance by {
                    lemma_heap_upto_root_max(pre, end + 1, i);
                };
            }
            h.swap_at(0, end);
            let ghost mid = h@;
            proof {
                assert(forall|i: int| 0 < i < end ==> mid[i] == pre[i]);
                assert(mid[0] == pre[end as int]);
                assert(mid[end as int] == pre[0]);
                assert(heap_except_down(mid, end as int, 0)) by {
                    assert forall|i: int| 1 <= i < end && (i - 1) / 2 != 0 implies (
                    #[trigger] mid[i])._distance <= mid[(i - 1) / 2]._distance by {
                        assert(mid[i] == pre[i]);
                        assert((i - 1) / 2 >= 1);
                        assert(mid[(i - 1) / 2] == pre[(i - 1) / 2]);
                    };
                };
            }
            if end > 0 {
                h.sift_down_root(end);
            }
            proof {
                let post = h@;
                // entries at and beyond `end` kept their values
                assert(forall|i: int| end <= i < len ==> post[i] == mid[i]);
                // the prefix was permuted among itself and stays bounded by
                // the value just placed at `end`
                assert(forall|i: int|
                    0 <= i < end ==> (#[trigger] mid[i])._distance <= pre[0]._distance);
                lemma_permuted_prefix_bound(mid, post, end as int, pre[0]._distance);
                assert forall|i: int, j: int| 0 <= i < end <= j < len implies post[i]._distance
                    <= post[j]._distance by {
                    assert(post[i]._distance <= pre[0]._distance);
                    assert(post[j] == mid[j]);
                    if j == end {
                        assert(mid[j] == pre[0]);
                    } else {
                        assert(mid[j] == pre[j]);
                        assert(pre[0]._distance <= pre[j]._distance);
                    }
                };
            }
        }
        proof {
            assert(sorted_by_distance(h@)) by {
                assert forall|i: int, j: int| 0 <= i <= j < len implies h@[i]._distance <= h@[
                    j
                ]._distance by {
                    if i < end && end <= j {
                    } else if j < end {
                        assert(i == 0 && j == 0 || end > 1 || (i < end && j < end && end <= 1));
                        assert(i == j || end <= 1);
                    }
                };
            };
        }
        let BinaryHeap { data } = h;
        data
    }
}

} // verus!
