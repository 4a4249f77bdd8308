//! The weighted streaming sampler (the A-ExpJ / priority-sampling family).
//!
//! The cursor yields `(weight, item)` pairs, the weight as the bit pattern of
//! a finite double that must be strictly positive.  Every element receives a
//! priority key `u ^ (1 / weight)` in spirit, but keys are only computed for
//! elements that can still displace the current minimum: a running budget,
//! kept by the random source, decides in closed form how many elements to
//! pass over.  The `size` smallest keys win, held in a [`BoundedMinHeap`].

use vstd::prelude::*;

verus! {

broadcast use {vstd::seq_lib::group_seq_properties, vstd::multiset::group_multiset_axioms};

use vstd::multiset::Multiset;

use crate::cursor::StreamCursor;
use crate::cursor::lemma_skip_one;
use crate::heap::BoundedMinHeap;
use crate::heap::WeightedItem;
use crate::heap::distinct_ticks;
use crate::heap::entry_le;
use crate::is_sample_of;
use crate::sampled_from;
use crate::random::WeightedRandomSource;
use crate::random::is_valid_weight;
use crate::random::valid_key_bits;
use crate::random::valid_weight_bits;

/// Why a weighted sampling call failed.
#[derive(Debug, Clone, Copy, PartialEq, Eq)]
pub enum SampleError {
    /// A stream weight was zero, negative, or not finite.
    InvalidWeight,
}

/// The payloads of a weighted stream, in arrival order.
pub open spec fn stream_items<T>(s: Seq<(u64, T)>) -> Seq<T> {
    s.map_values(|p: (u64, T)| p.1)
}

/// The first `upto` weights of the stream are all valid.
pub open spec fn weights_valid_upto<T>(s: Seq<(u64, T)>, upto: int) -> bool {
    forall|i: int| 0 <= i < upto ==> valid_weight_bits(#[trigger] s[i].0)
}

/// The sampler's bookkeeping: every heap entry was built from a distinct,
/// already-consumed stream position, recorded in `pos_of` under the entry's
/// tick, and carries a key inside `(0, 1)`.
spec fn heap_tracks<T>(
    hs: Seq<WeightedItem<T>>,
    ticks: usize,
    pos_of: Map<int, int>,
    items: Seq<T>,
    consumed: int,
) -> bool {
    &&& (forall|e: WeightedItem<T>| #[trigger]
        hs.to_multiset().contains(e) ==> (e.tick as int) < ticks as int && pos_of.contains_key(
            e.tick as int,
        ) && e.item == items[pos_of[e.tick as int]] && valid_key_bits(e.key))
    &&& (forall|t: int| #[trigger] pos_of.contains_key(t) ==> 0 <= pos_of[t] < consumed)
    &&& (forall|t: int| #[trigger] pos_of.contains_key(t) ==> t < ticks as int)
    &&& (forall|t1: int, t2: int|
        #![trigger pos_of[t1], pos_of[t2]]
        pos_of.contains_key(t1) && pos_of.contains_key(t2) && t1 != t2 ==> pos_of[t1]
            != pos_of[t2])
}

/// The tracked heap contents, read off in storage order, form a sample of
/// the consumed stream prefix: distinct positions, matching payloads.
proof fn lemma_sample_witness<T>(
    hs: Seq<WeightedItem<T>>,
    ticks: usize,
    pos_of: Map<int, int>,
    items: Seq<T>,
    consumed: int,
    out: Seq<T>,
)
    requires
        heap_tracks(hs, ticks, pos_of, items, consumed),
        distinct_ticks(hs),
        consumed <= items.len(),
        out == hs.map_values(|e: WeightedItem<T>| e.item),
    ensures
        is_sample_of(items, Seq::new(hs.len(), |i: int| pos_of[hs[i].tick as int]), out),
{
    let idx = Seq::new(hs.len(), |i: int| pos_of[hs[i].tick as int]);
    assert forall|i: int| 0 <= i < hs.len() implies hs.to_multiset().contains(#[trigger] hs[i]) by {
        assert(hs.contains(hs[i]));
    }
    assert forall|i: int| 0 <= i < idx.len() implies 0 <= #[trigger] idx[i] < items.len() by {
        assert(hs.to_multiset().contains(hs[i]));
    }
    assert forall|i: int| 0 <= i < idx.len() implies out[i] == items[#[trigger] idx[i]] by {
        assert(hs.to_multiset().contains(hs[i]));
    }
    assert forall|i: int, j: int| 0 <= i < j < idx.len() implies idx[i] != idx[j] by {
        assert(hs.to_multiset().contains(hs[i]));
        assert(hs.to_multiset().contains(hs[j]));
        assert(hs[i].tick != hs[j].tick);
    }
}

/// The least entry of a non-empty collection of entries with pairwise
/// distinct ticks: the one every other entry dominates in the entry order.
pub open spec fn ms_min<T>(m: Multiset<WeightedItem<T>>) -> WeightedItem<T> {
    choose|e: WeightedItem<T>|
        m.contains(e) && (forall|x: WeightedItem<T>| #[trigger] m.contains(x) ==> entry_le(e, x))
}

/// An entry that is contained and least in the entry order is `ms_min`,
/// provided no two entries of the underlying sequence share a tick.
proof fn lemma_min_entry<T>(hs: Seq<WeightedItem<T>>, e: WeightedItem<T>)
    requires
        distinct_ticks(hs),
        hs.to_multiset().contains(e),
        forall|x: WeightedItem<T>| #[trigger] hs.to_multiset().contains(x) ==> entry_le(e, x),
    ensures
        ms_min(hs.to_multiset()) == e,
{
    let m = hs.to_multiset();
    assert(m.contains(e) && (forall|x: WeightedItem<T>| #[trigger] m.contains(x) ==> entry_le(
        e,
        x,
    )));
    let e2 = ms_min(m);
    assert(m.contains(e2) && (forall|x: WeightedItem<T>| #[trigger] m.contains(x) ==> entry_le(
        e2,
        x,
    )));
    assert(entry_le(e, e2) && entry_le(e2, e));
    if e2 != e {
        assert(hs.contains(e) && hs.contains(e2));
        let i = choose|i: int| 0 <= i < hs.len() && hs[i] == e;
        let j = choose|j: int| 0 <= j < hs.len() && hs[j] == e2;
        assert(i != j);
        assert(hs[i].tick != hs[j].tick);
        assert(false);
    }
}

/// The seed phase as a function of the draw state: each element of `prefix`
/// receives an initial key and the next tick.  Returns the entries built and
/// the draw state left behind.
pub open spec fn seed_state<T, R: WeightedRandomSource>(
    prefix: Seq<(u64, T)>,
    tick0: int,
    rng: R,
) -> (Multiset<WeightedItem<T>>, R)
    decreases prefix.len(),
{
    if prefix.len() <= 0 {
        (Multiset::<WeightedItem<T>>::empty(), rng)
    } else {
        let w = prefix[0].0;
        let e = WeightedItem { key: rng.initial_key_now(w), tick: tick0 as usize, item: prefix[0].1 };
        let rest = seed_state(prefix.drop_first(), tick0 + 1, rng.post_initial_key(w));
        (rest.0.insert(e), rest.1)
    }
}

/// The replacement phase as a function of the draw state: each element
/// charges its weight against the budget; when the budget is spent the
/// element displaces the least entry under a fresh key and the budget
/// restarts from the new minimum.
pub open spec fn replacement_rounds<T, R: WeightedRandomSource>(
    remaining: Seq<(u64, T)>,
    entries: Multiset<WeightedItem<T>>,
    ticks: int,
    rng: R,
) -> Multiset<WeightedItem<T>>
    decreases remaining.len(),
{
    if remaining.len() <= 0 {
        entries
    } else {
        let w = remaining[0].0;
        let item = remaining[0].1;
        let rng1 = rng.post_spend(w);
        if rng.spend_now(w) {
            let m = ms_min(entries);
            let key = rng1.replacement_key_now(m.key, w);
            let rng2 = rng1.post_replacement_key(m.key, w);
            let entries2 = entries.remove(m).insert(
                (WeightedItem { key, tick: ticks as usize, item }),
            );
            let rng3 = rng2.post_start_budget(ms_min(entries2).key);
            replacement_rounds(remaining.drop_first(), entries2, ticks + 1, rng3)
        } else {
            replacement_rounds(remaining.drop_first(), entries, ticks, rng1)
        }
    }
}

/// The entries a weighted pass retains, as a function of the stream and the
/// draw state of the random source: seed the first `size` elements, then run
/// the replacement rounds over the rest with the budget started from the
/// minimum.  [`a_exp_j`] returns exactly these entries' payloads, so a run
/// is reproducible from the source's starting state.
pub open spec fn a_exp_j_entries<T, R: WeightedRandomSource>(
    stream: Seq<(u64, T)>,
    size: usize,
    rng: R,
) -> Multiset<WeightedItem<T>> {
    let seeded = seed_state(stream.take(size as int), 0, rng);
    replacement_rounds(
        stream.skip(size as int),
        seeded.0,
        size as int,
        seeded.1.post_start_budget(ms_min(seeded.0).key),
    )
}

/// `out` lists the payloads of `entries`, in some order.
pub open spec fn lists_entries<T>(entries: Multiset<WeightedItem<T>>, out: Seq<T>) -> bool {
    exists|es: Seq<WeightedItem<T>>|
        es.to_multiset() == entries && out == es.map_values(|e: WeightedItem<T>| e.item)
}

/// Seeded determinism of the weighted sampler: two passes over equal
/// streams, with equal sizes and equal starting draw states, retain equal
/// entries.  Together with the contract of [`a_exp_j`], which returns the
/// payloads of exactly [`a_exp_j_entries`], a fixed seed fixes the sample.
pub proof fn lemma_a_exp_j_deterministic<T, R: WeightedRandomSource>(
    stream1: Seq<(u64, T)>,
    stream2: Seq<(u64, T)>,
    size1: usize,
    size2: usize,
    rng1: R,
    rng2: R,
)
    requires
        stream1 == stream2,
        size1 == size2,
        rng1 == rng2,
    ensures
        a_exp_j_entries(stream1, size1, rng1) == a_exp_j_entries(stream2, size2, rng2),
{
}

/// Weighted reservoir sampling over a single forward pass.
///
/// With `size == 0` the call returns empty at once, touching neither the
/// stream nor the random source.  The call fails with
/// [`SampleError::InvalidWeight`] exactly when the stream holds a weight
/// outside the valid range, checking each weight before any key arithmetic on
/// it and producing no output (fail-fast).  Otherwise, if the stream holds
/// fewer than `size` elements they all come back, and a longer stream comes
/// back as exactly `size` elements drawn from distinct stream positions,
/// with the stream fully drained — namely the payloads of
/// [`a_exp_j_entries`], the retained entries as a function of the stream and
/// the random source's starting state.  The output order is heap storage
/// order: the sample is an unordered collection.
pub fn a_exp_j<T, C: StreamCursor<(u64, T)>, R: WeightedRandomSource>(
    stream: &mut C,
    size: usize,
    rng: &mut R,
) -> (r: Result<Vec<T>, SampleError>)
    ensures
        (r matches Ok(v) ==> sampled_from(stream_items(old(stream).remaining()), v@)),
        (r matches Ok(v) ==> v@.len() == (if old(stream).remaining().len() < size {
            old(stream).remaining().len() as int
        } else {
            size as int
        })),
        r is Err <==> (size > 0 && exists|i: int|
            0 <= i < old(stream).remaining().len() && !valid_weight_bits(
                #[trigger] old(stream).remaining()[i].0,
            )),
        (r matches Err(e) ==> e == SampleError::InvalidWeight),
        size == 0 ==> *final(stream) == *old(stream) && *final(rng) == *old(rng),
        r is Ok && size > 0 ==> final(stream).remaining().len() == 0,
        (r matches Ok(v) ==> (0 < size <= old(stream).remaining().len() ==> lists_entries(
            a_exp_j_entries(old(stream).remaining(), size, *old(rng)),
            v@,
        ))),
        (r matches Ok(v) ==> (old(stream).remaining().len() <= size ==> v@.to_multiset()
            == stream_items(old(stream).remaining()).to_multiset())),
{
    let ghost stream0 = stream.remaining();
    let ghost items = stream_items(stream0);
    if size == 0 {
        let empty: Vec<T> = Vec::new();
        proof {
            let witness = Seq::<int>::empty();
            assert(is_sample_of(stream_items(old(stream).remaining()), witness, empty@));
            assert(sampled_from(stream_items(old(stream).remaining()), empty@));
            if stream0.len() <= size {
                crate::lemma_full_sample_permutes(items, witness, empty@);
            }
        }
        return Ok(empty);
    }
    proof {
        stream.remaining_fits();
    }
    let ghost rng_start = *rng;
    let ghost seed_full = seed_state(stream0.take(size as int), 0, rng_start);
    let mut heap = BoundedMinHeap::<T>::new(size);
    let ghost mut pos_of: Map<int, int> = Map::empty();
    let ghost mut consumed: int = 0;
    proof {
        if size as int <= stream0.len() {
            assert(stream0.subrange(0, size as int) =~= stream0.take(size as int));
            assert(heap@.to_multiset() =~= Multiset::<WeightedItem<T>>::empty());
            assert(seed_full.0.add(heap@.to_multiset()) =~= seed_full.0);
        }
    }

    // Seed phase: the first `size` elements all enter the heap.
    loop
        invariant
            stream0 == old(stream).remaining(),
            items == stream_items(stream0),
            stream0.len() <= usize::MAX,
            0 < size,
            heap.wf(),
            heap.cap() == size,
            heap@.len() == consumed,
            heap.ticks() == consumed,
            0 <= consumed <= stream0.len(),
            consumed <= size,
            stream.remaining() == stream0.skip(consumed),
            heap_tracks(heap@, heap.ticks(), pos_of, items, consumed),
            weights_valid_upto(stream0, consumed),
            rng_start == *old(rng),
            seed_full == seed_state(stream0.take(size as int), 0, rng_start),
            size as int <= stream0.len() ==> seed_state(
                stream0.subrange(consumed, size as int),
                consumed,
                *rng,
            ).0.add(heap@.to_multiset()) == seed_full.0,
            size as int <= stream0.len() ==> seed_state(
                stream0.subrange(consumed, size as int),
                consumed,
                *rng,
            ).1 == seed_full.1,
        ensures
            heap@.len() == size,
            heap.wf(),
            heap.cap() == size,
            heap.ticks() == consumed,
            size as int <= consumed <= stream0.len(),
            stream.remaining() == stream0.skip(consumed),
            heap_tracks(heap@, heap.ticks(), pos_of, items, consumed),
            weights_valid_upto(stream0, consumed),
        decreases size - consumed,
    {
        if heap.len() == size {
            break ;
        }
        match stream.next() {
            None => {
                // The whole population was shorter than the sample.
                let ghost witness = Seq::new(heap@.len(), |i: int| pos_of[heap@[i].tick as int]);
                proof {
                    assert(consumed == stream0.len());
                    heap.lemma_wf_ticks();
                    lemma_sample_witness(
                        heap@,
                        heap.ticks(),
                        pos_of,
                        items,
                        consumed,
                        heap@.map_values(|e: WeightedItem<T>| e.item),
                    );
                }
                let samples = heap.into_items();
                proof {
                    assert(is_sample_of(stream_items(old(stream).remaining()), witness, samples@));
                    assert(sampled_from(stream_items(old(stream).remaining()), samples@));
                    crate::lemma_full_sample_permutes(items, witness, samples@);
                }
                return Ok(samples);
            }
            Some(pair) => {
                let (w, item) = pair;
                proof {
                    lemma_skip_one(stream0, consumed);
                    assert(pair == stream0[consumed]);
                }
                if !is_valid_weight(w) {
                    proof {
                        assert(!valid_weight_bits(stream0[consumed].0));
                    }
                    return Err(SampleError::InvalidWeight);
                }
                let ghost wpre = *rng;
                let ghost consumed_pre = consumed;
                let key = rng.initial_key(w);
                let ghost tick = heap.ticks();
                let ghost hpre = heap@;
                heap.push(key, item);
                proof {
                    let e = (WeightedItem { key, tick, item });
                    assert(heap@.to_multiset() == hpre.to_multiset().insert(e));
                    pos_of = pos_of.insert(tick as int, consumed);
                    consumed = consumed + 1;
                    assert(items[consumed - 1] == stream0[consumed - 1].1);
                    assert forall|x: WeightedItem<T>| #[trigger]
                        heap@.to_multiset().contains(x) implies (x.tick as int) < heap.ticks()
                        && pos_of.contains_key(x.tick as int) && x.item == items[pos_of[x.tick
                        as int]] && valid_key_bits(x.key) by {
                        if x != e {
                            assert(hpre.to_multiset().contains(x));
                        }
                    }
                    if size as int <= stream0.len() {
                        let pre_suffix = stream0.subrange(consumed_pre, size as int);
                        assert(pre_suffix[0] == stream0[consumed_pre]);
                        assert(pre_suffix.drop_first() =~= stream0.subrange(
                            consumed_pre + 1,
                            size as int,
                        ));
                        assert(seed_state(pre_suffix, consumed_pre, wpre).0 == seed_state(
                            pre_suffix.drop_first(),
                            consumed_pre + 1,
                            wpre.post_initial_key(w),
                        ).0.insert(e));
                        assert(seed_state(pre_suffix, consumed_pre, wpre).1 == seed_state(
                            pre_suffix.drop_first(),
                            consumed_pre + 1,
                            wpre.post_initial_key(w),
                        ).1);
                        let a = seed_state(stream0.subrange(consumed, size as int), consumed, *rng).0;
                        assert(a.insert(e).add(hpre.to_multiset()) =~= a.add(
                            hpre.to_multiset().insert(e),
                        ));
                    }
                }
            }
        }
    }

    // Replacement phase: elements only enter by displacing the minimum.
    let ghost target = a_exp_j_entries(stream0, size, rng_start);
    let t = heap.peek_min_key();
    proof {
        assert(heap@.to_multiset().contains(heap@[0])) by {
            assert(heap@.contains(heap@[0]));
        }
        heap.lemma_wf_ticks();
        assert forall|x: WeightedItem<T>| #[trigger] heap@.to_multiset().contains(x) implies entry_le(
            heap@[0],
            x,
        ) by {
            assert(heap@.contains(x));
            let i = choose|i: int| 0 <= i < heap@.len() && heap@[i] == x;
            assert(entry_le(heap@[0], heap@[i]));
        }
        lemma_min_entry(heap@, heap@[0]);
        assert(stream0.subrange(size as int, size as int) =~= Seq::<(u64, T)>::empty());
        assert(seed_state(stream0.subrange(size as int, size as int), consumed, *rng).0
            =~= Multiset::<WeightedItem<T>>::empty());
        assert(Multiset::<WeightedItem<T>>::empty().add(heap@.to_multiset())
            =~= heap@.to_multiset());
        assert(heap@.to_multiset() == seed_full.0);
        assert(*rng == seed_full.1);
        assert(ms_min(seed_full.0) == heap@[0]);
        assert(ms_min(seed_full.0).key == t);
    }
    rng.start_budget(t);
    proof {
        assert(*rng == seed_full.1.post_start_budget(ms_min(seed_full.0).key));
        assert(target == replacement_rounds(
            stream0.skip(size as int),
            seed_full.0,
            size as int,
            seed_full.1.post_start_budget(ms_min(seed_full.0).key),
        ));
        assert(target == replacement_rounds(
            stream0.skip(consumed),
            heap@.to_multiset(),
            heap.ticks() as int,
            *rng,
        ));
    }
    loop
        invariant
            stream0 == old(stream).remaining(),
            items == stream_items(stream0),
            stream0.len() <= usize::MAX,
            0 < size,
            heap.wf(),
            heap.cap() == size,
            heap@.len() == size,
            heap.ticks() <= consumed,
            size as int <= consumed <= stream0.len(),
            stream.remaining() == stream0.skip(consumed),
            heap_tracks(heap@, heap.ticks(), pos_of, items, consumed),
            weights_valid_upto(stream0, consumed),
            rng_start == *old(rng),
            target == a_exp_j_entries(stream0, size, rng_start),
            replacement_rounds(
                stream0.skip(consumed),
                heap@.to_multiset(),
                heap.ticks() as int,
                *rng,
            ) == target,
        decreases stream0.len() - consumed,
    {
        match stream.next() {
            None => {
                let ghost witness = Seq::new(heap@.len(), |i: int| pos_of[heap@[i].tick as int]);
                proof {
                    assert(consumed == stream0.len());
                    heap.lemma_wf_ticks();
                    lemma_sample_witness(
                        heap@,
                        heap.ticks(),
                        pos_of,
                        items,
                        consumed,
                        heap@.map_values(|e: WeightedItem<T>| e.item),
                    );
                }
                let ghost hs = heap@;
                let ghost hticks = heap.ticks();
                proof {
                    assert(stream0.skip(consumed).len() == 0);
                    assert(replacement_rounds(
                        stream0.skip(consumed),
                        hs.to_multiset(),
                        hticks as int,
                        *rng,
                    ) == hs.to_multiset());
                    assert(hs.to_multiset() == target);
                }
                let samples = heap.into_items();
                proof {
                    assert(is_sample_of(stream_items(old(stream).remaining()), witness, samples@));
                    assert(sampled_from(stream_items(old(stream).remaining()), samples@));
                    if stream0.len() <= size {
                        crate::lemma_full_sample_permutes(items, witness, samples@);
                    }
                    assert(samples@ == hs.map_values(|e: WeightedItem<T>| e.item));
                    assert(lists_entries(target, samples@));
                    assert(target == a_exp_j_entries(old(stream).remaining(), size, *old(rng)));
                    assert(lists_entries(
                        a_exp_j_entries(old(stream).remaining(), size, *old(rng)),
                        samples@,
                    ));
                }
                return Ok(samples);
            }
            Some(pair) => {
                let (w, item) = pair;
                proof {
                    lemma_skip_one(stream0, consumed);
                    assert(pair == stream0[consumed]);
                }
                if !is_valid_weight(w) {
                    proof {
                        assert(!valid_weight_bits(stream0[consumed].0));
                    }
                    return Err(SampleError::InvalidWeight);
                }
                let ghost consumed_pre = consumed;
                let ghost wpre = *rng;
                let ghost mspre = heap@.to_multiset();
                let ghost tickspre = heap.ticks();
                proof {
                    consumed = consumed + 1;
                    assert(items[consumed - 1] == stream0[consumed - 1].1);
                }
                if rng.spend(w) {
                    let ghost hpop = heap@;
                    proof {
                        heap.lemma_wf_ticks();
                    }
                    let popped = heap.pop_min();
                    proof {
                        assert(hpop.to_multiset().contains(popped));
                        lemma_min_entry(hpop, popped);
                        assert(popped == ms_min(mspre));
                    }
                    let newkey = rng.replacement_key(popped.key, w);
                    let ghost tick = heap.ticks();
                    let ghost hpre = heap@;
                    heap.push(newkey, item);
                    proof {
                        let e = (WeightedItem { key: newkey, tick, item });
                        assert(heap@.to_multiset() == hpre.to_multiset().insert(e));
                        pos_of = pos_of.insert(tick as int, consumed - 1);
                        assert forall|x: WeightedItem<T>| #[trigger]
                            heap@.to_multiset().contains(x) implies (x.tick as int) < heap.ticks()
                            && pos_of.contains_key(x.tick as int) && x.item == items[pos_of[x.tick
                            as int]] && valid_key_bits(x.key) by {
                            if x != e {
                                assert(hpre.to_multiset().contains(x));
                                assert(hpop.to_multiset().contains(x));
                            }
                        }
                    }
                    let t2 = heap.peek_min_key();
                    proof {
                        assert(heap@.to_multiset().contains(heap@[0])) by {
                            assert(heap@.contains(heap@[0]));
                        }
                        heap.lemma_wf_ticks();
                        assert forall|x: WeightedItem<T>| #[trigger]
                            heap@.to_multiset().contains(x) implies entry_le(heap@[0], x) by {
                            assert(heap@.contains(x));
                            let i = choose|i: int| 0 <= i < heap@.len() && heap@[i] == x;
                            assert(entry_le(heap@[0], heap@[i]));
                        }
                        lemma_min_entry(heap@, heap@[0]);
                    }
                    rng.start_budget(t2);
                    proof {
                        let e = (WeightedItem { key: newkey, tick, item });
                        let entries2 = mspre.remove(popped).insert(e);
                        assert(heap@.to_multiset() == entries2);
                        assert(ms_min(entries2).key == t2);
                        assert(newkey == wpre.post_spend(w).replacement_key_now(popped.key, w));
                        assert(*rng == wpre.post_spend(w).post_replacement_key(
                            popped.key,
                            w,
                        ).post_start_budget(ms_min(entries2).key));
                        assert(stream0.skip(consumed_pre)[0] == stream0[consumed_pre]);
                        assert(replacement_rounds(
                            stream0.skip(consumed_pre),
                            mspre,
                            tickspre as int,
                            wpre,
                        ) == replacement_rounds(
                            stream0.skip(consumed),
                            heap@.to_multiset(),
                            heap.ticks() as int,
                            *rng,
                        ));
                    }
                } else {
                    proof {
                        assert(stream0.skip(consumed_pre)[0] == stream0[consumed_pre]);
                        assert(replacement_rounds(
                            stream0.skip(consumed_pre),
                            mspre,
                            tickspre as int,
                            wpre,
                        ) == replacement_rounds(
                            stream0.skip(consumed),
                            heap@.to_multiset(),
                            heap.ticks() as int,
                            *rng,
                        ));
                    }
                }
            }
        }
    }
}

} // verus!
