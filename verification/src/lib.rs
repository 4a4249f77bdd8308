//! Streaming reservoir sampling.
//!
//! Draws a fixed-size random sample from a stream in a single forward pass:
//! an unweighted variant (the Algorithm L family) and a weighted variant
//! (the A-ExpJ / priority-sampling family), backed by a bounded min-heap of
//! priority keys.

pub mod cursor;
pub mod heap;
pub mod random;
pub mod uniform;
pub mod weighted;

use vstd::prelude::*;

verus! {

pub use cursor::StreamCursor;
pub use cursor::VecCursor;
pub use heap::BoundedMinHeap;
pub use heap::WeightedItem;
pub use random::UniformRandomSource;
pub use random::WeightedRandomSource;
pub use uniform::fill;
pub use uniform::l;
pub use weighted::SampleError;
pub use weighted::a_exp_j;

/// Predicate tying a sample to the stream it was drawn from: every output
/// element is a stream element, taken from pairwise distinct positions, so
/// no stream element is ever used twice.
pub open spec fn is_sample_of<T>(stream: Seq<T>, idx: Seq<int>, out: Seq<T>) -> bool {
    &&& idx.len() == out.len()
    &&& forall|i: int| 0 <= i < idx.len() ==> 0 <= #[trigger] idx[i] < stream.len()
    &&& forall|i: int| 0 <= i < idx.len() ==> out[i] == stream[#[trigger] idx[i]]
    &&& forall|i: int, j: int| 0 <= i < j < idx.len() ==> idx[i] != idx[j]
}

/// `out` can be produced by picking pairwise distinct positions of `stream`.
pub open spec fn sampled_from<T>(stream: Seq<T>, out: Seq<T>) -> bool {
    exists|idx: Seq<int>| is_sample_of(stream, idx, out)
}

/// A sample as long as its stream is the whole stream, reordered: drawing
/// `n` elements from pairwise distinct positions of a stream of `n` elements
/// touches every position once, so the two hold the same elements with the
/// same multiplicities.  With the samplers' contracts this says that a
/// population no larger than the requested size comes back in its entirety.
pub proof fn lemma_full_sample_permutes<T>(stream: Seq<T>, idx: Seq<int>, out: Seq<T>)
    requires
        is_sample_of(stream, idx, out),
        out.len() == stream.len(),
    ensures
        out.to_multiset() == stream.to_multiset(),
    decreases stream.len(),
{
    broadcast use {vstd::seq_lib::group_to_multiset_ensures, vstd::multiset::group_multiset_axioms};

    if stream.len() == 0 {
        assert(out.to_multiset() =~= stream.to_multiset());
    } else {
        let n = stream.len() as int;
        // Pigeonhole: some index points at the last position.  The index
        // values form a set of n distinct integers inside [0, n).
        assert(idx.no_duplicates());
        idx.unique_seq_to_set();
        let range = vstd::set_lib::set_int_range(0, n);
        vstd::set_lib::lemma_int_range(0, n);
        assert(idx.to_set().subset_of(range));
        if !idx.to_set().contains(n - 1) {
            let smaller = vstd::set_lib::set_int_range(0, n - 1);
            vstd::set_lib::lemma_int_range(0, n - 1);
            assert(idx.to_set().subset_of(smaller));
            vstd::set_lib::lemma_len_subset(idx.to_set(), smaller);
            assert(false);
        }
        assert(idx.contains(n - 1));
        let i = choose|i: int| 0 <= i < idx.len() && idx[i] == n - 1;
        let stream2 = stream.drop_last();
        let idx2 = idx.remove(i);
        let out2 = out.remove(i);
        assert(is_sample_of(stream2, idx2, out2)) by {
            assert forall|q: int| 0 <= q < idx2.len() implies 0 <= #[trigger] idx2[q] < stream2.len()
                && out2[q] == stream2[idx2[q]] by {
                let p = if q < i {
                    q
                } else {
                    q + 1
                };
                assert(idx2[q] == idx[p] && out2[q] == out[p]);
                assert(idx[p] != n - 1);
                assert(stream2[idx[p]] == stream[idx[p]]);
            }
            assert forall|q1: int, q2: int| 0 <= q1 < q2 < idx2.len() implies idx2[q1] != idx2[q2] by {
                let p1 = if q1 < i {
                    q1
                } else {
                    q1 + 1
                };
                let p2 = if q2 < i {
                    q2
                } else {
                    q2 + 1
                };
                assert(idx2[q1] == idx[p1] && idx2[q2] == idx[p2]);
            }
        }
        lemma_full_sample_permutes(stream2, idx2, out2);
        assert(out2.to_multiset() == out.to_multiset().remove(out[i]));
        assert(stream.drop_last() =~= stream.remove(n - 1));
        assert(stream2.to_multiset() == stream.to_multiset().remove(stream[n - 1]));
        assert(out[i] == stream[n - 1]);
        assert(out.contains(out[i]));
        assert(stream.contains(stream[n - 1]));
        assert(out.to_multiset().count(out[i]) > 0);
        assert(stream.to_multiset().count(stream[n - 1]) > 0);
        assert forall|x: T| out.to_multiset().count(x) == stream.to_multiset().count(x) by {
            assert(out2.to_multiset().count(x) == stream2.to_multiset().count(x));
            assert(out.to_multiset().remove(out[i]).count(x) == stream.to_multiset().remove(
                stream[n - 1],
            ).count(x));
        }
        assert(out.to_multiset() =~= stream.to_multiset());
    }
}

} // verus!
