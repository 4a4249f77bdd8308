//! The unweighted streaming sampler (the Algorithm L family).
//!
//! One pass over the cursor yields a reservoir of `size` elements in which
//! every stream element has equal inclusion probability.  Random draws are
//! spent per accepted candidate, not per stream element: the random source
//! names how many elements may be discarded outright, and the cursor skips
//! them without materializing them.

use vstd::prelude::*;

verus! {

broadcast use vstd::seq_lib::group_seq_properties;

use crate::cursor::StreamCursor;
use crate::cursor::lemma_skip_one;
use crate::cursor::lemma_skip_skip;
use crate::is_sample_of;
use crate::sampled_from;
use crate::random::UniformRandomSource;

/// Fetch up to `size` elements from the cursor, in arrival order.
pub fn fill<T, C: StreamCursor<T>>(cursor: &mut C, size: usize) -> (samples: Vec<T>)
    ensures
        samples@.len() == (if old(cursor).remaining().len() < size {
            old(cursor).remaining().len() as int
        } else {
            size as int
        }),
        samples@ == old(cursor).remaining().take(samples@.len() as int),
        final(cursor).remaining() == old(cursor).remaining().skip(samples@.len() as int),
{
    let ghost stream = cursor.remaining();
    let mut samples: Vec<T> = Vec::new();
    proof {
        assert(samples@ =~= stream.take(0));
        assert(cursor.remaining() =~= stream.skip(0));
    }
    while samples.len() < size
        invariant
            samples@.len() <= size,
            samples@.len() <= stream.len(),
            samples@ == stream.take(samples@.len() as int),
            cursor.remaining() == stream.skip(samples@.len() as int),
        ensures
            samples@.len() == size || cursor.remaining().len() == 0,
            samples@.len() <= size,
            samples@.len() <= stream.len(),
            samples@ == stream.take(samples@.len() as int),
            cursor.remaining() == stream.skip(samples@.len() as int),
        decreases size - samples@.len(),
    {
        let ghost k = samples@.len() as int;
        match cursor.next() {
            Some(item) => {
                proof {
                    lemma_skip_one(stream, k);
                }
                samples.push(item);
                proof {
                    assert(item == stream[k]);
                    assert(samples@.len() == k + 1);
                    assert forall|i: int| 0 <= i < k + 1 implies samples@[i] == stream.take(
                        k + 1,
                    )[i] by {
                        assert(stream.take(k + 1)[i] == stream[i]);
                        if i < k {
                            assert(samples@[i] == stream.take(k)[i]);
                            assert(stream.take(k)[i] == stream[i]);
                        } else {
                            assert(samples@[i] == item);
                        }
                    }
                    assert(samples@ =~= stream.take(k + 1));
                }
            }
            None => {
                break ;
            }
        }
    }
    proof {
        if cursor.remaining().len() == 0 && samples@.len() < size {
            assert(stream.skip(samples@.len() as int).len() == 0);
        }
    }
    samples
}

/// The replacement rounds of Algorithm L as a mathematical function of the
/// stream, the seeded reservoir, and the draw state of the random source.
///
/// Each round reads a skip distance off the draw state; if skipping that many
/// elements lands beyond the stream the pass is over, otherwise the element
/// there overwrites a randomly drawn reservoir slot and the draw state
/// advances.  [`l`] returns exactly this function of its inputs, so a run is
/// reproducible from the source's starting state.
pub open spec fn l_rounds<T, R: UniformRandomSource>(
    stream: Seq<T>,
    size: usize,
    res: Seq<T>,
    consumed: int,
    rng: R,
) -> Seq<T>
    decreases stream.len() - consumed
        when 0 < size && 0 <= consumed <= stream.len()
{
    let steps = rng.skip_now() as int;
    if consumed + steps >= stream.len() {
        res
    } else {
        let after_skip = rng.post_skip();
        let j = if after_skip.slot_now(size) < size {
            after_skip.slot_now(size) as int
        } else {
            0
        };
        let next = after_skip.post_slot(size).post_accept(size);
        l_rounds(stream, size, res.update(j, stream[consumed + steps]), consumed + steps + 1, next)
    }
}

/// Seeded determinism of the unweighted sampler: two passes over equal
/// streams, with equal sizes and equal starting draw states, yield equal
/// samples.  Together with the contract of [`l`], which returns exactly
/// [`l_rounds`] of its inputs, a fixed seed fixes the output.
pub proof fn lemma_l_deterministic<T, R: UniformRandomSource>(
    stream1: Seq<T>,
    stream2: Seq<T>,
    size1: usize,
    size2: usize,
    rng1: R,
    rng2: R,
)
    requires
        stream1 == stream2,
        size1 == size2,
        rng1 == rng2,
    ensures
        l_rounds(stream1, size1, stream1.take(size1 as int), size1 as int, rng1.post_start(size1))
            == l_rounds(
            stream2,
            size2,
            stream2.take(size2 as int),
            size2 as int,
            rng2.post_start(size2),
        ),
{
}

/// Unweighted reservoir sampling over a single forward pass.
///
/// With `size == 0` the call returns empty at once, leaving the cursor and
/// the random source untouched.  When the stream holds fewer than `size`
/// elements the whole stream comes back in arrival order, and the caller can
/// read the shortfall off the returned length.  Otherwise exactly `size`
/// elements come back, each taken from a distinct stream position, the stream
/// is fully drained, and the result is [`l_rounds`] applied to the stream and
/// the random source's starting state.
pub fn l<T, C: StreamCursor<T>, R: UniformRandomSource>(
    cursor: &mut C,
    size: usize,
    rng: &mut R,
) -> (samples: Vec<T>)
    ensures
        sampled_from(old(cursor).remaining(), samples@),
        samples@.len() == (if old(cursor).remaining().len() < size {
            old(cursor).remaining().len() as int
        } else {
            size as int
        }),
        old(cursor).remaining().len() < size ==> samples@ == old(cursor).remaining(),
        size == 0 ==> *final(cursor) == *old(cursor) && *final(rng) == *old(rng),
        size > 0 ==> final(cursor).remaining().len() == 0,
        0 < size <= old(cursor).remaining().len() ==> samples@ == l_rounds(
            old(cursor).remaining(),
            size,
            old(cursor).remaining().take(size as int),
            size as int,
            old(rng).post_start(size),
        ),
{
    let ghost stream = cursor.remaining();
    if size == 0 {
        let samples: Vec<T> = Vec::new();
        proof {
            assert(is_sample_of(stream, Seq::<int>::empty(), samples@));
            assert(sampled_from(stream, samples@));
        }
        return samples;
    }
    let mut samples = fill(cursor, size);
    if samples.len() < size {
        proof {
            let witness = Seq::<int>::new(samples@.len() as nat, |i: int| i);
            assert(is_sample_of(stream, witness, samples@));
            assert(sampled_from(stream, samples@));
            assert(samples@ =~= stream);
        }
        return samples;
    }
    rng.start(size);
    let ghost rng0 = *rng;
    let ghost mut idx = Seq::<int>::new(size as nat, |i: int| i);
    let ghost mut consumed: int = size as int;
    proof {
        cursor.remaining_fits();
    }
    loop
        invariant
            stream == old(cursor).remaining(),
            rng0 == old(rng).post_start(size),
            0 < size <= samples@.len(),
            samples@.len() == size,
            idx.len() == size as int,
            size as int <= consumed <= stream.len(),
            cursor.remaining() == stream.skip(consumed),
            l_rounds(stream, size, samples@, consumed, *rng) == l_rounds(
                stream,
                size,
                stream.take(size as int),
                size as int,
                rng0,
            ),
            forall|i: int| 0 <= i < size ==> 0 <= #[trigger] idx[i] < consumed,
            forall|i: int| 0 <= i < size ==> samples@[i] == stream[#[trigger] idx[i]],
            forall|i: int, j: int| 0 <= i < j < size ==> idx[i] != idx[j],
        decreases stream.len() - consumed,
    {
        let ghost pre = *rng;
        let ghost samples_pre = samples@;
        let ghost consumed_pre = consumed;
        let steps = rng.next_skip();
        let ghost rem = cursor.remaining();
        match cursor.advance(steps) {
            Some(item) => {
                proof {
                    assert(rem[steps as int] == stream[consumed + steps]);
                    lemma_skip_skip(stream, consumed, steps as int + 1);
                }
                let j = rng.pick_slot(size);
                samples[j] = item;
                proof {
                    idx = idx.update(j as int, consumed + steps);
                    consumed = consumed + steps + 1;
                }
                rng.accept(size);
                proof {
                    assert(consumed_pre + pre.skip_now() < stream.len());
                    assert(pre.post_skip().slot_now(size) == j);
                    assert(l_rounds(stream, size, samples_pre, consumed_pre, pre) == l_rounds(
                        stream,
                        size,
                        samples@,
                        consumed,
                        *rng,
                    ));
                }
            }
            None => {
                proof {
                    assert(consumed + pre.skip_now() >= stream.len());
                    assert(l_rounds(stream, size, samples@, consumed, pre) == samples@);
                    assert(is_sample_of(stream, idx, samples@));
                    assert(sampled_from(stream, samples@));
                }
                return samples;
            }
        }
    }
}

} // verus!
