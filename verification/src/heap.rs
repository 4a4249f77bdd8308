//! A bounded min-heap of priority keys, backing the weighted sampler.
//!
//! Entries are ordered by `key` (the bit pattern of a priority in `(0, 1)`;
//! positive IEEE 754 doubles order exactly as their bit patterns do, so a
//! `u64` comparison is the float comparison).  Exact key ties are broken by
//! `tick`, the order of insertion, so results are deterministic under a fixed
//! draw sequence and never depend on the payload.

use vstd::prelude::*;

verus! {

broadcast use {vstd::seq_lib::group_to_multiset_ensures, vstd::multiset::group_multiset_axioms};

/// One retained candidate: a priority key and the payload it scores.
pub struct WeightedItem<T> {
    /// Bit pattern of the priority key, a double in `(0, 1)`.
    pub key: u64,
    /// Insertion number, the tie-breaker.
    pub tick: usize,
    /// The retained element itself.
    pub item: T,
}

/// Total order on entries: by key, ties by insertion order.
pub open spec fn entry_le<T>(a: WeightedItem<T>, b: WeightedItem<T>) -> bool {
    a.key < b.key || (a.key == b.key && a.tick <= b.tick)
}

/// No two entries of the sequence share an insertion number.
pub open spec fn distinct_ticks<T>(s: Seq<WeightedItem<T>>) -> bool {
    forall|i: int, j: int|
        0 <= i < j < s.len() ==> #[trigger] s[i].tick != #[trigger] s[j].tick
}

/// The binary-heap shape: every entry dominates its parent's order.
spec fn heap_ordered<T>(s: Seq<WeightedItem<T>>) -> bool {
    forall|i: int| 0 < i < s.len() ==> entry_le(s[(i - 1) / 2], #[trigger] s[i])
}

/// Heap shape everywhere except that `j`'s parent may exceed `j`; the
/// children of `j`, if any, still dominate `j`'s parent.
spec fn sift_up_ok<T>(s: Seq<WeightedItem<T>>, j: int) -> bool {
    &&& forall|i: int| 0 < i < s.len() && i != j ==> entry_le(s[(i - 1) / 2], #[trigger] s[i])
    &&& (j > 0 ==> forall|c: int|
        0 < c < s.len() && (c - 1) / 2 == j ==> entry_le(s[(j - 1) / 2], #[trigger] s[c]))
}

/// Heap shape everywhere except that `j` may exceed its children; the
/// children of `j` still dominate `j`'s parent.
spec fn sift_down_ok<T>(s: Seq<WeightedItem<T>>, j: int) -> bool {
    &&& forall|i: int| 0 < i < s.len() && (i - 1) / 2 != j ==> entry_le(s[(i - 1) / 2], #[trigger] s[i])
    &&& (j > 0 ==> forall|c: int|
        0 < c < s.len() && (c - 1) / 2 == j ==> entry_le(s[(j - 1) / 2], #[trigger] s[c]))
}

/// In a heap-shaped sequence the root is a minimum.
proof fn lemma_root_le<T>(s: Seq<WeightedItem<T>>, i: int)
    requires
        heap_ordered(s),
        0 <= i < s.len(),
    ensures
        entry_le(s[0], s[i]),
    decreases i,
{
    if i > 0 {
        lemma_root_le(s, (i - 1) / 2);
    }
}

/// Multiset equality carries tick bounds and tick distinctness from one
/// arrangement of entries to another.
proof fn lemma_ticks_transfer<T>(s1: Seq<WeightedItem<T>>, s2: Seq<WeightedItem<T>>, bound: usize)
    requires
        s1.to_multiset() == s2.to_multiset(),
        forall|i: int| 0 <= i < s1.len() ==> #[trigger] s1[i].tick < bound,
        distinct_ticks(s1),
    ensures
        forall|i: int| 0 <= i < s2.len() ==> #[trigger] s2[i].tick < bound,
        distinct_ticks(s2),
{
    assert forall|i: int| 0 <= i < s2.len() implies #[trigger] s2[i].tick < bound by {
        assert(s2.to_multiset().count(s2[i]) > 0) by {
            assert(s2.contains(s2[i]));
        }
        assert(s1.contains(s2[i]));
        let k = choose|k: int| 0 <= k < s1.len() && s1[k] == s2[i];
        assert(s1[k].tick < bound);
    }
    assert forall|i: int, j: int| 0 <= i < j < s2.len() implies #[trigger] s2[i].tick
        != #[trigger] s2[j].tick by {
        if s2[i].tick == s2[j].tick {
            if s2[i] == s2[j] {
                let e = s2[i];
                // Two positions hold the same entry, so its count is at least 2.
                assert(s2.remove(i).to_multiset() == s2.to_multiset().remove(e));
                assert(s2.remove(i)[j - 1] == e);
                assert(s2.remove(i).contains(e));
                assert(s2.to_multiset().remove(e).count(e) > 0);
                assert(s1.to_multiset().count(e) >= 2);
                assert(s1.contains(e));
                let k1 = choose|k: int| 0 <= k < s1.len() && s1[k] == e;
                assert(s1.remove(k1).to_multiset() == s1.to_multiset().remove(e));
                assert(s1.remove(k1).to_multiset().count(e) > 0);
                assert(s1.remove(k1).contains(e));
                let k2 = choose|k: int| 0 <= k < s1.remove(k1).len() && s1.remove(k1)[k] == e;
                let k3 = if k2 < k1 {
                    k2
                } else {
                    k2 + 1
                };
                assert(s1[k3] == e && k3 != k1);
                assert(s1[k1].tick == s1[k3].tick);
                assert(false);
            } else {
                assert(s2.contains(s2[i]) && s2.contains(s2[j]));
                assert(s2.to_multiset().count(s2[i]) > 0 && s2.to_multiset().count(s2[j]) > 0);
                assert(s1.contains(s2[i]) && s1.contains(s2[j]));
                let k1 = choose|k: int| 0 <= k < s1.len() && s1[k] == s2[i];
                let k2 = choose|k: int| 0 <= k < s1.len() && s1[k] == s2[j];
                assert(k1 != k2);
                assert(s1[k1].tick == s1[k2].tick);
                assert(false);
            }
        }
    }
}

/// Exchange the elements at `i` and `j`.
fn vec_swap<T>(v: &mut Vec<T>, i: usize, j: usize)
    requires
        i < old(v)@.len(),
        j < old(v)@.len(),
    ensures
        final(v)@ == old(v)@.update(i as int, old(v)@[j as int]).update(
            j as int,
            old(v)@[i as int],
        ),
{
    let ghost s0 = v@;
    if i == j {
        proof {
            assert(s0.update(i as int, s0[j as int]).update(j as int, s0[i as int]) =~= s0);
        }
        return ;
    }
    let (a, b) = if i < j {
        (i, j)
    } else {
        (j, i)
    };
    let x = v.remove(b);
    let y = v.remove(a);
    v.insert(a, x);
    v.insert(b, y);
    proof {
        assert(v@ =~= s0.update(i as int, s0[j as int]).update(j as int, s0[i as int]));
    }
}

/// A fixed-capacity min-heap over [`WeightedItem`].
///
/// The minimum entry is always at the front of the view; `push` is only
/// allowed below capacity, so a full heap is updated by popping the minimum
/// first, as the weighted sampler's replacement step does.
pub struct BoundedMinHeap<T> {
    store: Vec<WeightedItem<T>>,
    capacity: usize,
    next_tick: usize,
}

impl<T> View for BoundedMinHeap<T> {
    type V = Seq<WeightedItem<T>>;

    closed spec fn view(&self) -> Seq<WeightedItem<T>> {
        self.store@
    }
}

impl<T> BoundedMinHeap<T> {
    /// The fixed capacity the heap was created with.
    pub closed spec fn cap(&self) -> usize {
        self.capacity
    }

    /// The number of insertions made so far; also the next tick to be used.
    pub closed spec fn ticks(&self) -> usize {
        self.next_tick
    }

    /// Well-formedness: heap shape, capacity respected, and every tick unique
    /// and below the insertion counter.
    pub closed spec fn wf(&self) -> bool {
        &&& heap_ordered(self.store@)
        &&& self.store@.len() <= self.capacity
        &&& forall|i: int| 0 <= i < self.store@.len() ==> #[trigger] self.store@[i].tick
            < self.next_tick
        &&& distinct_ticks(self.store@)
    }

    /// A well-formed heap has pairwise distinct ticks, all below `ticks()`.
    pub proof fn lemma_wf_ticks(&self)
        requires
            self.wf(),
        ensures
            distinct_ticks(self@),
            forall|i: int| 0 <= i < self@.len() ==> #[trigger] self@[i].tick < self.ticks(),
    {
    }

    /// An empty heap of the given capacity.
    pub fn new(capacity: usize) -> (h: Self)
        ensures
            h@ == Seq::<WeightedItem<T>>::empty(),
            h.wf(),
            h.cap() == capacity,
            h.ticks() == 0,
    {
        BoundedMinHeap { store: Vec::new(), capacity, next_tick: 0 }
    }

    /// How many entries the heap currently holds.
    pub fn len(&self) -> (n: usize)
        ensures
            n == self@.len(),
    {
        self.store.len()
    }

    /// Insert an entry; it receives the next insertion tick.
    pub fn push(&mut self, key: u64, item: T)
        requires
            old(self).wf(),
            old(self)@.len() < old(self).cap(),
            old(self).ticks() < usize::MAX,
        ensures
            final(self).wf(),
            final(self).cap() == old(self).cap(),
            final(self).ticks() == old(self).ticks() + 1,
            final(self)@.len() == old(self)@.len() + 1,
            final(self)@.to_multiset() == old(self)@.to_multiset().insert(
                (WeightedItem { key, tick: old(self).ticks(), item }),
            ),
    {
        let ghost s0 = self.store@;
        let tick = self.next_tick;
        let j = self.store.len();
        self.next_tick = tick + 1;
        let ghost e = WeightedItem { key, tick, item };
        self.store.push(WeightedItem { key, tick, item });
        proof {
            let s1 = self.store@;
            assert(s1 == s0.push(e));
            assert(s1.to_multiset() == s0.to_multiset().insert(e));
            assert forall|i: int| 0 < i < s1.len() && i != j as int implies entry_le(
                s1[(i - 1) / 2],
                #[trigger] s1[i],
            ) by {
                assert(s1[i] == s0[i] && s1[(i - 1) / 2] == s0[(i - 1) / 2]);
            }
            assert(sift_up_ok(s1, j as int));
            assert(forall|i: int| 0 <= i < s1.len() ==> #[trigger] s1[i].tick < self.next_tick);
            assert(distinct_ticks(s1));
        }
        self.sift_up(j);
        proof {
            lemma_ticks_transfer(s0.push(e), self.store@, self.next_tick);
        }
    }

    /// Restore the heap shape by moving the entry at `j0` up towards the root.
    fn sift_up(&mut self, j0: usize)
        requires
            j0 < old(self).store@.len(),
            sift_up_ok(old(self).store@, j0 as int),
        ensures
            final(self).store@.to_multiset() == old(self).store@.to_multiset(),
            final(self).store@.len() == old(self).store@.len(),
            heap_ordered(final(self).store@),
            final(self).capacity == old(self).capacity,
            final(self).next_tick == old(self).next_tick,
    {
        let mut j = j0;
        loop
            invariant
                j < self.store@.len(),
                self.store@.len() == old(self).store@.len(),
                self.store@.to_multiset() == old(self).store@.to_multiset(),
                sift_up_ok(self.store@, j as int),
                self.capacity == old(self).capacity,
                self.next_tick == old(self).next_tick,
            ensures
                heap_ordered(self.store@),
            decreases j,
        {
            if j == 0 {
                break ;
            }
            let p = (j - 1) / 2;
            let stop = {
                let pe = &self.store[p];
                let je = &self.store[j];
                pe.key < je.key || (pe.key == je.key && pe.tick <= je.tick)
            };
            if stop {
                break ;
            }
            let ghost s = self.store@;
            let ghost pi = p as int;
            let ghost ji = j as int;
            vec_swap(&mut self.store, p, j);
            proof {
                let s2 = self.store@;
                assert(s2 == s.update(pi, s[ji]).update(ji, s[pi]));
                assert(s2.to_multiset() == s.to_multiset()) by {
                    assert(s.update(pi, s[ji]).to_multiset() == s.to_multiset().insert(
                        s[ji],
                    ).remove(s[pi]));
                    assert(s.update(pi, s[ji])[ji] == s[ji]);
                    assert(s2.to_multiset() =~= s.to_multiset());
                }
                assert(entry_le(s[ji], s[pi]));
                assert forall|i: int| 0 < i < s2.len() && i != pi implies entry_le(
                    s2[(i - 1) / 2],
                    #[trigger] s2[i],
                ) by {
                    let q = (i - 1) / 2;
                    if i == ji {
                        assert(entry_le(s2[q], s2[i]));
                    } else if q == ji {
                        // A child of the old position: dominated j's parent.
                        assert(entry_le(s[pi], s[i]));
                        assert(entry_le(s2[q], s2[i]));
                    } else if q == pi {
                        // A sibling subtree child of p: s[p] <= s[i], and the
                        // new occupant of p is even smaller.
                        assert(entry_le(s[pi], s[i]));
                        assert(entry_le(s2[q], s2[i]));
                    } else {
                        assert(s2[i] == s[i] && s2[q] == s[q]);
                    }
                }
                if pi > 0 {
                    let pp = (pi - 1) / 2;
                    assert forall|c: int| 0 < c < s2.len() && (c - 1) / 2 == pi implies entry_le(
                        s2[pp],
                        #[trigger] s2[c],
                    ) by {
                        assert(s2[pp] == s[pp]);
                        assert(entry_le(s[pp], s[pi]));
                        if c == ji {
                            assert(s2[c] == s[pi]);
                        } else {
                            assert(s2[c] == s[c]);
                            assert(entry_le(s[pi], s[c]));
                        }
                    }
                }
                assert(sift_up_ok(s2, pi));
            }
            j = p;
        }
    }

    /// The key of the current minimum entry, which sits at the front of the
    /// view and is least in the entry order.
    pub fn peek_min_key(&self) -> (k: u64)
        requires
            self.wf(),
            self@.len() > 0,
        ensures
            k == self@[0].key,
            forall|i: int| 0 <= i < self@.len() ==> k <= #[trigger] self@[i].key,
            forall|i: int| 0 <= i < self@.len() ==> entry_le(self@[0], #[trigger] self@[i]),
    {
        proof {
            assert forall|i: int| 0 <= i < self@.len() implies entry_le(
                self@[0],
                #[trigger] self@[i],
            ) by {
                lemma_root_le(self.store@, i);
            }
        }
        self.store[0].key
    }

    /// Remove and return a minimum entry (the least key, earliest tick).
    pub fn pop_min(&mut self) -> (e: WeightedItem<T>)
        requires
            old(self).wf(),
            old(self)@.len() > 0,
        ensures
            final(self).wf(),
            final(self).cap() == old(self).cap(),
            final(self).ticks() == old(self).ticks(),
            final(self)@.len() == old(self)@.len() - 1,
            e == old(self)@[0],
            old(self)@.to_multiset().contains(e),
            final(self)@.to_multiset() == old(self)@.to_multiset().remove(e),
            forall|x: WeightedItem<T>| old(self)@.to_multiset().contains(x) ==> entry_le(e, x),
    {
        let ghost s0 = self.store@;
        proof {
            assert(s0.contains(s0[0]));
            assert forall|x: WeightedItem<T>| s0.to_multiset().contains(x) implies entry_le(
                s0[0],
                x,
            ) by {
                assert(s0.contains(x));
                let i = choose|i: int| 0 <= i < s0.len() && s0[i] == x;
                lemma_root_le(s0, i);
            }
        }
        let e = self.store.swap_remove(0);
        proof {
            let s1 = self.store@;
            let last = s0[s0.len() - 1];
            let u = s0.update(0, last);
            assert(s1 == u.drop_last());
            assert(u.to_multiset() == s0.to_multiset().insert(last).remove(s0[0]));
            assert(u[u.len() - 1] == last);
            assert(s1 == u.remove(u.len() - 1));
            assert(s1.to_multiset() == u.to_multiset().remove(last));
            assert(s1.to_multiset() =~= s0.to_multiset().remove(s0[0]));
            if s1.len() > 0 {
                assert forall|i: int| 0 < i < s1.len() && (i - 1) / 2 != 0 implies entry_le(
                    s1[(i - 1) / 2],
                    #[trigger] s1[i],
                ) by {
                    assert(s1[i] == s0[i] && s1[(i - 1) / 2] == s0[(i - 1) / 2]);
                }
                assert(sift_down_ok(s1, 0));
            }
        }
        if self.store.len() > 0 {
            self.sift_down();
        }
        proof {
            lemma_ticks_transfer(s0, s0, self.next_tick);
            let s1 = s0.update(0, s0[s0.len() - 1]).drop_last();
            assert forall|i: int| 0 <= i < s1.len() implies #[trigger] s1[i].tick
                < self.next_tick by {
                if i == 0 {
                    assert(s1[0] == s0[s0.len() - 1]);
                } else {
                    assert(s1[i] == s0[i]);
                }
            }
            assert forall|i: int, j: int| 0 <= i < j < s1.len() implies #[trigger] s1[i].tick
                != #[trigger] s1[j].tick by {
                if i == 0 {
                    assert(s1[0] == s0[s0.len() - 1] && s1[j] == s0[j]);
                } else {
                    assert(s1[i] == s0[i] && s1[j] == s0[j]);
                }
            }
            lemma_ticks_transfer(s1, self.store@, self.next_tick);
        }
        e
    }

    /// Restore the heap shape by moving the root down towards the leaves.
    fn sift_down(&mut self)
        requires
            old(self).store@.len() > 0,
            sift_down_ok(old(self).store@, 0),
        ensures
            final(self).store@.to_multiset() == old(self).store@.to_multiset(),
            final(self).store@.len() == old(self).store@.len(),
            heap_ordered(final(self).store@),
            final(self).capacity == old(self).capacity,
            final(self).next_tick == old(self).next_tick,
    {
        let mut j: usize = 0;
        let n = self.store.len();
        loop
            invariant
                j < n,
                n == self.store@.len(),
                self.store@.len() == old(self).store@.len(),
                self.store@.to_multiset() == old(self).store@.to_multiset(),
                sift_down_ok(self.store@, j as int),
                self.capacity == old(self).capacity,
                self.next_tick == old(self).next_tick,
            ensures
                heap_ordered(self.store@),
            decreases n - j,
        {
            if j >= n / 2 {
                // No children: every edge already satisfies the heap shape.
                proof {
                    assert forall|i: int| 0 < i < self.store@.len() implies entry_le(
                        self.store@[(i - 1) / 2],
                        #[trigger] self.store@[i],
                    ) by {
                        assert((i - 1) / 2 != j as int);
                    }
                }
                break ;
            }
            proof {
                assert(2 * (j as int) + 1 < n as int);
            }
            let left = 2 * j + 1;
            let right = left + 1;
            let c = if right < n {
                let le = &self.store[left];
                let re = &self.store[right];
                if re.key < le.key || (re.key == le.key && re.tick < le.tick) {
                    right
                } else {
                    left
                }
            } else {
                left
            };
            let ghost ci = c as int;
            let ghost ji = j as int;
            proof {
                // c is the least child of j.
                assert(entry_le(self.store@[ci], self.store@[2 * ji + 1]));
                assert(ci == 2 * ji + 2 ==> entry_le(self.store@[ci], self.store@[2 * ji + 2]));
                assert(2 * ji + 2 < n as int ==> entry_le(self.store@[ci], self.store@[2 * ji + 2]));
            }
            let stop = {
                let je = &self.store[j];
                let ce = &self.store[c];
                je.key < ce.key || (je.key == ce.key && je.tick <= ce.tick)
            };
            if stop {
                proof {
                    assert forall|i: int| 0 < i < self.store@.len() implies entry_le(
                        self.store@[(i - 1) / 2],
                        #[trigger] self.store@[i],
                    ) by {
                        let q = (i - 1) / 2;
                        if q == ji {
                            assert(i == 2 * ji + 1 || i == 2 * ji + 2);
                            assert(entry_le(self.store@[ji], self.store@[ci]));
                            assert(entry_le(self.store@[ci], self.store@[i]));
                        }
                    }
                }
                break ;
            }
            let ghost s = self.store@;
            vec_swap(&mut self.store, j, c);
            proof {
                let s2 = self.store@;
                assert(s2 == s.update(ji, s[ci]).update(ci, s[ji]));
                assert(s2.to_multiset() == s.to_multiset()) by {
                    assert(s.update(ji, s[ci]).to_multiset() == s.to_multiset().insert(
                        s[ci],
                    ).remove(s[ji]));
                    assert(s.update(ji, s[ci])[ci] == s[ci]);
                    assert(s2.to_multiset() =~= s.to_multiset());
                }
                assert(entry_le(s[ci], s[ji]));
                assert forall|i: int| 0 < i < s2.len() && (i - 1) / 2 != ci implies entry_le(
                    s2[(i - 1) / 2],
                    #[trigger] s2[i],
                ) by {
                    let q = (i - 1) / 2;
                    if i == ci {
                        assert(entry_le(s2[q], s2[i]));
                    } else if q == ji {
                        // The other child of j: c was the least child.
                        assert(entry_le(s[ci], s[i]));
                        assert(entry_le(s2[q], s2[i]));
                    } else if i == ji {
                        // j's parent dominated j's children, c among them.
                        assert(q != ji && q != ci);
                        assert(s2[q] == s[q] && s2[i] == s[ci]);
                        assert(entry_le(s[q], s[ci]));
                    } else {
                        assert(s2[i] == s[i] && s2[q] == s[q]);
                        assert(entry_le(s[q], s[i]));
                    }
                }
                assert forall|gc: int| 0 < gc < s2.len() && (gc - 1) / 2 == ci implies entry_le(
                    s2[(ci - 1) / 2],
                    #[trigger] s2[gc],
                ) by {
                    assert((gc - 1) / 2 != ji);
                    assert(s2[gc] == s[gc]);
                    assert(entry_le(s[ci], s[gc]));
                    assert(s2[(ci - 1) / 2] == s[ci] || (ci - 1) / 2 == ji);
                    assert((ci - 1) / 2 == ji);
                    assert(s2[ji] == s[ci]);
                }
                assert(sift_down_ok(s2, ci));
            }
            j = c;
        }
    }

    /// Consume the heap and hand back the payloads, in storage order.
    pub fn into_items(self) -> (items: Vec<T>)
        ensures
            items@ == self@.map_values(|e: WeightedItem<T>| e.item),
    {
        let ghost all = self.store@;
        let mut store = self.store;
        let mut items: Vec<T> = Vec::new();
        loop
            invariant
                items@.len() <= all.len(),
                items@ =~= all.take(items@.len() as int).map_values(
                    |e: WeightedItem<T>| e.item,
                ),
                store@ == all.skip(items@.len() as int),
            ensures
                store@.len() == 0,
                items@ =~= all.take(items@.len() as int).map_values(|e: WeightedItem<T>| e.item),
                items@.len() == all.len(),
            decreases store@.len(),
        {
            if store.len() == 0 {
                break ;
            }
            let ghost k = items@.len() as int;
            let e = store.remove(0);
            proof {
                assert(all.skip(k)[0] == all[k]);
                assert(all.skip(k).remove(0) =~= all.skip(k + 1));
            }
            items.push(e.item);
            proof {
                assert(items@ =~= all.take(k + 1).map_values(|e: WeightedItem<T>| e.item));
            }
        }
        proof {
            assert(all.take(all.len() as int) =~= all);
            assert(items@ =~= all.map_values(|e: WeightedItem<T>| e.item));
        }
        items
    }
}

} // verus!
